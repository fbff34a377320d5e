//! Little-endian integers inside byte strings, and the bit patterns of
//! floating-point values.
//!
//! Floating-point values are held as their IEEE-754 bit patterns: storing,
//! comparing and range-checking them needs no arithmetic.

use vstd::prelude::*;

verus! {

/// The lowest `width` bytes of a natural number, low byte first.
pub open spec fn le_bytes(value: nat, width: nat) -> Seq<u8>
    decreases width,
{
    if width == 0 {
        Seq::empty()
    } else {
        seq![(value % 256) as u8] + le_bytes(value / 256, (width - 1) as nat)
    }
}

/// The number that bytes hold, low byte first.
pub open spec fn le_value(bytes: Seq<u8>) -> nat
    decreases bytes.len(),
{
    if bytes.len() == 0 {
        0
    } else {
        bytes[0] as nat + 256 * le_value(bytes.drop_first())
    }
}

/// One more than the largest number `width` bytes can hold.
pub open spec fn le_limit(width: nat) -> nat
    decreases width,
{
    if width == 0 {
        1
    } else {
        256 * le_limit((width - 1) as nat)
    }
}

pub proof fn lemma_le_bytes_len(value: nat, width: nat)
    ensures
        le_bytes(value, width).len() == width,
    decreases width,
{
    if width > 0 {
        lemma_le_bytes_len(value / 256, (width - 1) as nat);
    }
}

/// Reading back what was written gives the number, as long as it fits.
pub proof fn law_le_round_trip(value: nat, width: nat)
    requires
        value < le_limit(width),
    ensures
        le_value(le_bytes(value, width)) == value,
    decreases width,
{
    if width > 0 {
        let rest = le_bytes(value / 256, (width - 1) as nat);
        law_le_round_trip(value / 256, (width - 1) as nat);
        assert(le_bytes(value, width).drop_first() =~= rest);
    }
}

pub proof fn lemma_le_value_bound(bytes: Seq<u8>)
    ensures
        le_value(bytes) < le_limit(bytes.len()),
    decreases bytes.len(),
{
    if bytes.len() > 0 {
        lemma_le_value_bound(bytes.drop_first());
    }
}

pub proof fn lemma_le_limits()
    ensures
        le_limit(1) == 0x100,
        le_limit(2) == 0x1_0000,
        le_limit(4) == 0x1_0000_0000,
        le_limit(8) == 0x1_0000_0000_0000_0000,
{
    reveal_with_fuel(le_limit, 9);
}

/// Appends the lowest `width` bytes of `value`.
pub fn push_le(bytes: &mut Vec<u8>, value: u64, width: usize)
    ensures
        final(bytes)@ == old(bytes)@ + le_bytes(value as nat, width as nat),
{
    let ghost start = bytes@;
    let mut rest: u64 = value;
    let mut left: usize = width;
    proof {
        lemma_le_bytes_len(value as nat, width as nat);
    }
    while left > 0
        invariant
            left <= width,
            bytes@ + le_bytes(rest as nat, left as nat) == start + le_bytes(
                value as nat,
                width as nat,
            ),
        decreases left,
    {
        let ghost before = bytes@;
        bytes.push((rest % 256) as u8);
        proof {
            let tail = le_bytes((rest / 256) as nat, (left - 1) as nat);
            assert(bytes@ + tail =~= before + le_bytes(rest as nat, left as nat));
        }
        rest = rest / 256;
        left -= 1;
    }
    assert(bytes@ + le_bytes(rest as nat, 0) =~= bytes@);
}

/// The number in the `width` bytes from `offset` on.
pub fn read_le(bytes: &[u8], offset: usize, width: usize) -> (value: u64)
    requires
        width <= 8,
        offset + width <= bytes@.len(),
    ensures
        value == le_value(bytes@.subrange(offset as int, offset + width)),
        value < le_limit(width as nat),
{
    let length: usize = bytes.len();
    let mut value: u64 = 0;
    let mut left: usize = width;
    proof {
        assert(bytes@.subrange(offset + width, offset + width).len() == 0);
    }
    while left > 0
        invariant
            left <= width <= 8,
            length == bytes@.len(),
            offset + width <= length,
            value == le_value(bytes@.subrange(offset + left, offset + width)),
        decreases left,
    {
        let ghost field = bytes@.subrange(offset + left - 1, offset + width);
        proof {
            assert(field.drop_first() =~= bytes@.subrange(offset + left, offset + width));
            lemma_le_value_bound(field);
            lemma_limit_growth(field.len(), 8);
            lemma_le_limits();
        }
        value = value * 256 + bytes[offset + left - 1] as u64;
        left -= 1;
    }
    proof {
        lemma_le_value_bound(bytes@.subrange(offset as int, offset + width));
    }
    value
}

proof fn lemma_limit_growth(narrow: nat, wide: nat)
    requires
        narrow <= wide,
    ensures
        le_limit(narrow) <= le_limit(wide),
    decreases wide,
{
    if narrow < wide {
        lemma_limit_growth(narrow, (wide - 1) as nat);
    }
}

/// The two's-complement bits of a signed value.
pub open spec fn i32_bits(value: i32) -> u32 {
    if value < 0 {
        (value + 0x1_0000_0000) as u32
    } else {
        value as u32
    }
}

/// The signed value of two's-complement bits.
pub open spec fn i32_of_bits(bits: u32) -> i32 {
    if bits >= 0x8000_0000 {
        (bits - 0x1_0000_0000) as i32
    } else {
        bits as i32
    }
}

pub fn to_i32_bits(value: i32) -> (bits: u32)
    ensures
        bits == i32_bits(value),
{
    if value < 0 {
        (value as i64 + 0x1_0000_0000) as u32
    } else {
        value as u32
    }
}

pub fn from_i32_bits(bits: u32) -> (value: i32)
    ensures
        value == i32_of_bits(bits),
{
    if bits >= 0x8000_0000 {
        (bits as i64 - 0x1_0000_0000) as i32
    } else {
        bits as i32
    }
}

/// Sign bit of a double.
pub const F64_SIGN: u64 = 0x8000_0000_0000_0000;

/// The pattern of positive infinity; everything above it (below the sign
/// bit) is a NaN.
pub const F64_INFINITY: u64 = 0x7FF0_0000_0000_0000;

/// The pattern of one.
pub const F64_ONE: u64 = 0x3FF0_0000_0000_0000;

pub const F32_SIGN: u32 = 0x8000_0000;

pub const F32_INFINITY: u32 = 0x7F80_0000;

/// The magnitude pattern of a double: its bits without the sign.
pub open spec fn f64_magnitude(bits: u64) -> u64 {
    if bits >= F64_SIGN {
        (bits - F64_SIGN) as u64
    } else {
        bits
    }
}

pub open spec fn f64_is_nan(bits: u64) -> bool {
    f64_magnitude(bits) > F64_INFINITY
}

pub open spec fn f64_is_finite(bits: u64) -> bool {
    f64_magnitude(bits) < F64_INFINITY
}

/// The position of a double (not a NaN) on the number line; the two zeros
/// share theirs. Patterns of one sign order as their values do.
pub open spec fn f64_rank(bits: u64) -> int {
    if bits >= F64_SIGN {
        -(f64_magnitude(bits) as int)
    } else {
        bits as int
    }
}

/// `left < right` on doubles; false with a NaN on either side.
pub open spec fn f64_less(left: u64, right: u64) -> bool {
    !f64_is_nan(left) && !f64_is_nan(right) && f64_rank(left) < f64_rank(right)
}

/// `left == right` on doubles; a NaN equals nothing.
pub open spec fn f64_equal(left: u64, right: u64) -> bool {
    !f64_is_nan(left) && !f64_is_nan(right) && f64_rank(left) == f64_rank(right)
}

/// Finite and not below zero (negative zero counts as zero).
pub open spec fn f64_is_cost(bits: u64) -> bool {
    f64_is_finite(bits) && f64_rank(bits) >= 0
}

/// Finite and above zero.
pub open spec fn f64_is_positive(bits: u64) -> bool {
    f64_is_finite(bits) && f64_rank(bits) > 0
}

/// Within the closed unit interval.
pub open spec fn f64_is_fraction(bits: u64) -> bool {
    !f64_is_nan(bits) && 0 <= f64_rank(bits) <= F64_ONE
}

pub open spec fn f32_is_cost(bits: u32) -> bool {
    bits < F32_INFINITY || bits == F32_SIGN
}

pub fn is_nan(bits: u64) -> (nan: bool)
    ensures
        nan == f64_is_nan(bits),
{
    if bits >= F64_SIGN {
        bits - F64_SIGN > F64_INFINITY
    } else {
        bits > F64_INFINITY
    }
}

pub fn is_finite(bits: u64) -> (finite: bool)
    ensures
        finite == f64_is_finite(bits),
{
    if bits >= F64_SIGN {
        bits - F64_SIGN < F64_INFINITY
    } else {
        bits < F64_INFINITY
    }
}

fn rank(bits: u64) -> (position: i128)
    ensures
        position == f64_rank(bits),
{
    if bits >= F64_SIGN {
        -((bits - F64_SIGN) as i128)
    } else {
        bits as i128
    }
}

pub fn less(left: u64, right: u64) -> (below: bool)
    ensures
        below == f64_less(left, right),
{
    !is_nan(left) && !is_nan(right) && rank(left) < rank(right)
}

pub fn equal(left: u64, right: u64) -> (same: bool)
    ensures
        same == f64_equal(left, right),
{
    !is_nan(left) && !is_nan(right) && rank(left) == rank(right)
}

pub fn is_cost(bits: u64) -> (cost: bool)
    ensures
        cost == f64_is_cost(bits),
{
    is_finite(bits) && rank(bits) >= 0
}

pub fn is_positive(bits: u64) -> (positive: bool)
    ensures
        positive == f64_is_positive(bits),
{
    is_finite(bits) && rank(bits) > 0
}

pub fn is_fraction(bits: u64) -> (fraction: bool)
    ensures
        fraction == f64_is_fraction(bits),
{
    !is_nan(bits) && 0 <= rank(bits) && rank(bits) <= F64_ONE as i128
}

pub fn is_cost_f32(bits: u32) -> (cost: bool)
    ensures
        cost == f32_is_cost(bits),
{
    bits < F32_INFINITY || bits == F32_SIGN
}

/// Byte `at` of a written number is its digit at that place to the base of
/// two hundred and fifty-six: the lowest digit comes first.
pub proof fn law_le_bytes_are_the_digits(value: nat, width: nat, at: nat)
    requires
        at < width,
    ensures
        le_bytes(value, width).len() == width,
        le_bytes(value, width)[at as int] == (value / le_limit(at)) % 256,
    decreases width,
{
    lemma_le_bytes_len(value, width);
    lemma_le_bytes_len(value / 256, (width - 1) as nat);
    if at > 0 {
        let rest = le_bytes(value / 256, (width - 1) as nat);
        let below = le_limit((at - 1) as nat);
        law_le_bytes_are_the_digits(value / 256, (width - 1) as nat, (at - 1) as nat);
        assert(le_bytes(value, width)[at as int] == rest[at - 1]);
        lemma_le_limit_positive((at - 1) as nat);
        vstd::arithmetic::div_mod::lemma_div_denominator(value as int, 256, below as int);
    } else {
        assert(value / 1 == value);
    }
}

proof fn lemma_le_limit_positive(width: nat)
    ensures
        le_limit(width) > 0,
    decreases width,
{
    if width > 0 {
        lemma_le_limit_positive((width - 1) as nat);
    }
}

/// A byte after others counts for as much as they leave room for.
pub proof fn law_le_values_grow_at_the_end(bytes: Seq<u8>, next: u8)
    ensures
        le_value(bytes.push(next)) == le_value(bytes) + next * le_limit(bytes.len()),
    decreases bytes.len(),
{
    if bytes.len() == 0 {
        reveal_with_fuel(le_value, 2);
        assert(bytes.push(next).drop_first() == Seq::<u8>::empty());
        assert(next * le_limit(bytes.len()) == next) by {
            assert(le_limit(bytes.len()) == 1);
            assert(next * 1 == next);
        }
    } else {
        let more = bytes.push(next);
        assert(more.drop_first() == bytes.drop_first().push(next));
        law_le_values_grow_at_the_end(bytes.drop_first(), next);
        let room = le_limit((bytes.len() - 1) as nat);
        let rest = le_value(bytes.drop_first());
        assert(le_limit(bytes.len()) == 256 * room);
        assert(256 * (rest + next * room) == 256 * rest + next * (256 * room)) by (nonlinear_arith);
        assert(le_value(more) == more[0] as nat + 256 * le_value(more.drop_first()));
    }
}

/// A signed number's bits differ from it by nothing, or by the whole range
/// where it is negative; reading them gives it back.
pub proof fn law_signed_bits(value: i32, bits: u32)
    ensures
        value >= 0 ==> i32_bits(value) == value,
        value < 0 ==> i32_bits(value) - value == 0x1_0000_0000,
        i32_of_bits(i32_bits(value)) == value,
        i32_bits(i32_of_bits(bits)) == bits,
{
}

/// Doubles that are not below zero stand in the order of their bits.
pub proof fn law_unsigned_doubles_order_as_bits(left: u64, right: u64)
    requires
        left <= 0x7FF0_0000_0000_0000,
        right <= 0x7FF0_0000_0000_0000,
    ensures
        f64_less(left, right) <==> left < right,
        f64_equal(left, right) <==> left == right,
{
}

/// Changing both signs turns the order around; the two zeros are equal, and
/// any other double lies on its sign's side of zero.
pub proof fn law_signs_turn_the_order_around(left: u64, right: u64)
    requires
        left <= 0x7FF0_0000_0000_0000,
        right <= 0x7FF0_0000_0000_0000,
    ensures
        ({
            let minus_left = (left + 0x8000_0000_0000_0000) as u64;
            let minus_right = (right + 0x8000_0000_0000_0000) as u64;
            &&& f64_less(minus_left, minus_right) <==> f64_less(right, left)
            &&& f64_equal(minus_left, minus_right) <==> f64_equal(left, right)
            &&& f64_less(minus_left, right) <==> left > 0 || right > 0
            &&& f64_equal(minus_left, right) <==> left == 0 && right == 0
            &&& !f64_less(right, minus_left)
        }),
{
}

/// Of two doubles that are numbers exactly one of less, equal and greater
/// holds, and the order is transitive; with one that is no number none holds.
pub proof fn law_doubles_are_ordered(left: u64, middle: u64, right: u64)
    ensures
        !f64_less(left, left),
        f64_less(left, right) ==> !f64_less(right, left) && !f64_equal(left, right),
        f64_equal(left, right) ==> f64_equal(right, left) && !f64_less(left, right),
        f64_less(left, middle) && f64_less(middle, right) ==> f64_less(left, right),
        f64_equal(left, middle) && f64_less(middle, right) ==> f64_less(left, right),
        f64_is_nan(left) || f64_is_nan(right) ==> !f64_less(left, right) && !f64_equal(
            left,
            right,
        ),
        !f64_is_nan(left) && !f64_is_nan(right) ==> f64_less(left, right) || f64_less(right, left)
            || f64_equal(left, right),
{
}

/// What a double's bits say of it: whether it is a number, finite, an amount,
/// positive, or within the unit interval.
pub proof fn law_double_classes(bits: u64)
    ensures
        f64_is_nan(bits) <==> bits % 0x8000_0000_0000_0000 > 0x7FF0_0000_0000_0000,
        f64_is_finite(bits) <==> bits % 0x8000_0000_0000_0000 < 0x7FF0_0000_0000_0000,
        f64_is_cost(bits) <==> bits < 0x7FF0_0000_0000_0000 || bits == 0x8000_0000_0000_0000,
        f64_is_positive(bits) <==> 0 < bits < 0x7FF0_0000_0000_0000,
        f64_is_fraction(bits) <==> bits <= 0x3FF0_0000_0000_0000 || bits == 0x8000_0000_0000_0000,
{
}

/// A single-precision amount is zero of either sign, or positive and finite.
pub proof fn law_single_amounts(bits: u32)
    ensures
        f32_is_cost(bits) <==> bits < 0x7F80_0000 || bits == 0x8000_0000,
{
}

} // verus!
