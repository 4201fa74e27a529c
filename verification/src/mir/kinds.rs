//! Integers of a width and a signedness, kept as bits.

use vstd::arithmetic::power2::*;
use vstd::prelude::*;

use crate::text::{self, push_decimal};

verus! {

/// The width and signedness of an integer.
#[derive(Clone, Copy, Debug, PartialEq, Eq, Structural)]
pub struct IntKind {
    pub bits: u32,
    pub signed: bool,
}

impl IntKind {
    /// A width an integer of the language can have.
    pub open spec fn wf(self) -> bool {
        1 <= self.bits <= 128
    }

    /// The number of bits kept.
    pub open spec fn width(self) -> nat {
        if self.bits >= 128 {
            128
        } else {
            self.bits as nat
        }
    }

    /// How many values there are.
    pub open spec fn size(self) -> int {
        pow2(self.width()) as int
    }

    /// The first value with the sign bit set, read without sign.
    pub open spec fn half(self) -> int {
        pow2((self.width() - 1) as nat) as int
    }

    /// The bits of a number: its remainder modulo the number of values.
    pub open spec fn wrap(self, n: int) -> u128 {
        (n % self.size()) as u128
    }

    /// The bits read as a signed number.
    pub open spec fn signed_value(self, raw: u128) -> int {
        let low = raw as int % self.size();
        if low >= self.half() {
            low - self.size()
        } else {
            low
        }
    }

    /// The number the bits stand for.
    pub open spec fn value(self, raw: u128) -> int {
        if self.signed {
            self.signed_value(raw)
        } else {
            raw as int % self.size()
        }
    }

    /// Whether the number has bits of this kind that stand for it.
    pub open spec fn in_range(self, n: int) -> bool {
        if self.signed {
            -self.half() <= n < self.half()
        } else {
            0 <= n < self.size()
        }
    }
}

// -------------------------------------------------------------- shifting ---

proof fn lemma_top()
    ensures
        pow2(128) == 0x1_0000_0000_0000_0000_0000_0000_0000_0000,
{
    lemma2_to64();
    lemma2_to64_rest();
    lemma_pow2_adds(64, 64);
    assert(0x1_0000_0000_0000_0000int * 0x1_0000_0000_0000_0000int
        == 0x1_0000_0000_0000_0000_0000_0000_0000_0000int) by (nonlinear_arith);
}

/// What a width and its powers of two have to do with each other.
pub proof fn lemma_sizes(k: IntKind)
    requires
        k.bits >= 1,
    ensures
        0 < k.half(),
        k.size() == 2 * k.half(),
        k.size() <= pow2(128),
        pow2(128) == 0x1_0000_0000_0000_0000_0000_0000_0000_0000,
        pow2(128) % (k.size() as nat) == 0,
        exists|m: int| #[trigger] (m * k.size()) == pow2(128),
{
    lemma_top();
    let w = k.width();
    lemma_pow2_unfold(w);
    lemma_pow2_pos((w - 1) as nat);
    let rest = (128 - w) as nat;
    lemma_pow2_adds(rest, w);
    lemma_pow2_pos(rest);
    lemma_pow2_pos(w);
    assert(pow2(rest) * pow2(w) == pow2(128));
    assert((pow2(rest) as int) * k.size() == pow2(128));
    assert(k.size() <= pow2(128)) by (nonlinear_arith)
        requires
            (pow2(rest) as int) * k.size() == pow2(128),
            pow2(rest) >= 1,
            k.size() >= 0,
    ;
    vstd::arithmetic::div_mod::lemma_mod_multiples_basic(pow2(rest) as int, k.size());
}

/// Shifting left by `n` multiplies by a power of two, modulo the bits there
/// are.
pub proof fn lemma_shl(x: u128, n: u32)
    requires
        n < 128,
    ensures
        (x << n) as int == (x * pow2(n as nat)) % (pow2(128) as int),
    decreases n,
{
    lemma_top();
    if n == 0 {
        lemma2_to64();
        assert(x << 0u32 == x) by (bit_vector);
        vstd::arithmetic::div_mod::lemma_small_mod(x as nat, pow2(128));
    } else {
        let k = (n - 1) as u32;
        lemma_shl(x, k);
        lemma_pow2_unfold(n as nat);
        let y = x << k;
        assert(x << n == (x << k) << 1u32) by (bit_vector)
            requires
                n == k + 1,
                n < 128,
        ;
        assert(y < 0x8000_0000_0000_0000_0000_0000_0000_0000 ==> (y << 1u32) == 2 * y)
            by (bit_vector);
        assert(y >= 0x8000_0000_0000_0000_0000_0000_0000_0000 ==> (y << 1u32) == 2 * (y
            - 0x8000_0000_0000_0000_0000_0000_0000_0000)) by (bit_vector);
        let p = pow2(k as nat) as int;
        let m = pow2(128) as int;
        assert(x * pow2(n as nat) == 2 * (x * p)) by (nonlinear_arith)
            requires
                pow2(n as nat) == 2 * p,
        ;
        vstd::arithmetic::div_mod::lemma_mul_mod_noop_right(2, x * p, m);
        if y < 0x8000_0000_0000_0000_0000_0000_0000_0000 {
            vstd::arithmetic::div_mod::lemma_small_mod((2 * y) as nat, m as nat);
        } else {
            vstd::arithmetic::div_mod::lemma_mod_multiples_vanish(-1, 2 * y, m);
            vstd::arithmetic::div_mod::lemma_small_mod((2 * y - m) as nat, m as nat);
        }
    }
}

/// One with `n` zeros after it.
proof fn lemma_one_shl(n: u32)
    requires
        n < 128,
    ensures
        (1u128 << n) as int == pow2(n as nat),
        pow2(n as nat) < pow2(128),
{
    lemma_shl(1, n);
    lemma_pow2_strictly_increases(n as nat, 128);
    vstd::arithmetic::div_mod::lemma_small_mod(pow2(n as nat), pow2(128));
}

/// Reducing modulo all the bits first does not change the low bits.
pub proof fn lemma_low_bits(k: IntKind, n: int)
    requires
        k.bits >= 1,
    ensures
        (n % (pow2(128) as int)) % k.size() == n % k.size(),
{
    lemma_sizes(k);
    let m = choose|m: int| #[trigger] (m * k.size()) == pow2(128);
    let s = k.size();
    assert(m > 0) by (nonlinear_arith)
        requires
            m * s == pow2(128),
            s > 0,
            pow2(128) > 0,
    ;
    vstd::arithmetic::div_mod::lemma_mod_mod(n, s, m);
    assert(s * m == m * s) by (nonlinear_arith);
}

/// A number and the number its bits stand for leave the same remainder.
pub proof fn lemma_value_congruent(k: IntKind, raw: u128)
    requires
        k.bits >= 1,
    ensures
        k.value(raw) % k.size() == raw as int % k.size(),
        k.signed_value(raw) % k.size() == raw as int % k.size(),
        -k.half() <= k.signed_value(raw) < k.half(),
        k.in_range(k.value(raw)),
{
    lemma_sizes(k);
    let s = k.size();
    let low = raw as int % s;
    vstd::arithmetic::div_mod::lemma_mod_twice(raw as int, s);
    vstd::arithmetic::div_mod::lemma_mod_multiples_vanish(-1, low, s);
}

impl IntKind {
    pub fn new(bits: u32, signed: bool) -> (r: IntKind)
        ensures
            r == (IntKind { bits, signed }),
    {
        IntKind { bits, signed }
    }

    /// Mask covering the value's width.
    pub fn mask(self) -> (r: u128)
        ensures
            r == self.size() - 1,
    {
        if self.bits >= 128 {
            proof {
                lemma_top();
            }
            0xFFFF_FFFF_FFFF_FFFF_FFFF_FFFF_FFFF_FFFF
        } else {
            proof {
                lemma_one_shl(self.bits);
                lemma_pow2_pos(self.bits as nat);
            }
            (1u128 << self.bits) - 1
        }
    }

    /// Truncates to this width, discarding anything above it.
    pub fn truncate(self, raw: u128) -> (r: u128)
        ensures
            r == raw as int % self.size(),
    {
        if self.bits >= 128 {
            proof {
                lemma_top();
                vstd::arithmetic::div_mod::lemma_small_mod(raw as nat, pow2(128));
            }
            raw
        } else {
            proof {
                lemma_one_shl(self.bits);
                lemma_pow2_pos(self.bits as nat);
            }
            raw % (1u128 << self.bits)
        }
    }

    /// Reads the bits as a signed value, extending the sign bit.
    pub fn as_signed(self, raw: u128) -> (r: i128)
        requires
            self.bits >= 1,
        ensures
            r == self.signed_value(raw),
    {
        let low: u128 = self.truncate(raw);
        let last: u32 = if self.bits >= 128 {
            127
        } else {
            self.bits - 1
        };
        proof {
            lemma_sizes(self);
            lemma_one_shl(last);
        }
        let sign: u128 = 1u128 << last;
        if low >= sign {
            let below: u128 = self.mask() - low;
            -(below as i128) - 1
        } else {
            low as i128
        }
    }

    /// Whether the number can be held at this width, which is how overflow is
    /// decided for both signednesses.
    pub fn fits(self, raw: i128) -> (r: bool)
        requires
            self.bits >= 1,
        ensures
            r == self.in_range(raw as int),
    {
        proof {
            lemma_sizes(self);
        }
        if self.signed {
            let last: u32 = if self.bits >= 128 {
                127
            } else {
                self.bits - 1
            };
            proof {
                lemma_one_shl(last);
            }
            let greatest: i128 = ((1u128 << last) - 1) as i128;
            -greatest - 1 <= raw && raw <= greatest
        } else {
            raw >= 0 && raw as u128 <= self.mask()
        }
    }

    /// The bits of a number given by its sign and magnitude.
    pub fn wrap_signed(self, negative: bool, magnitude: u128) -> (r: u128)
        requires
            self.bits >= 1,
        ensures
            r == self.wrap(
                if negative {
                    -(magnitude as int)
                } else {
                    magnitude as int
                },
            ),
            r < self.size(),
    {
        proof {
            lemma_sizes(self);
        }
        let low: u128 = self.truncate(magnitude);
        if !negative || low == 0 {
            proof {
                if negative {
                    let s = self.size();
                    let q = magnitude as int / s;
                    vstd::arithmetic::div_mod::lemma_fundamental_div_mod(magnitude as int, s);
                    assert(s * q == q * s) by (nonlinear_arith);
                    assert(-(magnitude as int) == (-q) * s) by (nonlinear_arith)
                        requires
                            magnitude as int == q * s,
                    ;
                    vstd::arithmetic::div_mod::lemma_mod_multiples_basic(-q, s);
                }
            }
            low
        } else {
            proof {
                let s = self.size();
                let q = magnitude as int / s;
                vstd::arithmetic::div_mod::lemma_fundamental_div_mod(magnitude as int, s);
                assert(s * q == q * s) by (nonlinear_arith);
                assert(-(magnitude as int) == s * (-q - 1) + (s - low)) by (nonlinear_arith)
                    requires
                        magnitude as int == s * q + low,
                ;
                vstd::arithmetic::div_mod::lemma_fundamental_div_mod_converse(
                    -(magnitude as int),
                    s,
                    -q - 1,
                    s - low,
                );
            }
            self.mask() - low + 1
        }
    }
}

/// A kind as diagnostics show it.
pub open spec fn kind_debug(k: IntKind) -> Seq<char> {
    "IntKind { bits: "@ + text::decimal(k.bits as nat) + ", signed: "@ + bool_text(k.signed)
        + " }"@
}

/// A truth value as it is written.
pub open spec fn bool_text(b: bool) -> Seq<char> {
    if b {
        "true"@
    } else {
        "false"@
    }
}

/// Appends a truth value.
pub fn push_bool(out: &mut String, b: bool)
    ensures
        final(out)@ == old(out)@ + bool_text(b),
{
    if b {
        out.append("true");
    } else {
        out.append("false");
    }
}

impl IntKind {
    /// Appends the kind as diagnostics show it.
    pub fn push_debug(self, out: &mut String)
        ensures
            final(out)@ == old(out)@ + kind_debug(self),
    {
        let ghost before = out@;
        out.append("IntKind { bits: ");
        push_decimal(out, self.bits as u128);
        out.append(", signed: ");
        push_bool(out, self.signed);
        out.append(" }");
        assert(out@ =~= before + kind_debug(self));
    }
}

// ---------------------------------------------------------------- laws ---

/// Bits and numbers determine each other: the bits of a number in range stand
/// for that number.
pub proof fn numbers_in_range_survive(k: IntKind, n: int)
    requires
        k.bits >= 1,
        k.in_range(n),
    ensures
        k.value(k.wrap(n)) == n,
{
    lemma_sizes(k);
    let s = k.size();
    if n >= 0 {
        vstd::arithmetic::div_mod::lemma_small_mod(n as nat, s as nat);
        vstd::arithmetic::div_mod::lemma_small_mod(n as nat, s as nat);
    } else {
        vstd::arithmetic::div_mod::lemma_mod_multiples_vanish(1, n, s);
        vstd::arithmetic::div_mod::lemma_small_mod((n + s) as nat, s as nat);
    }
}

/// Truncating what is already truncated changes nothing.
pub proof fn truncating_twice_is_truncating_once(k: IntKind, raw: u128)
    requires
        k.bits >= 1,
    ensures
        k.wrap(k.wrap(raw as int) as int) == k.wrap(raw as int),
        k.wrap(raw as int) < k.size(),
{
    lemma_sizes(k);
    vstd::arithmetic::div_mod::lemma_mod_twice(raw as int, k.size());
}

} // verus!
