//! Bucket geometry: which values a histogram with three significant decimal
//! digits counts together.
//!
//! Values below 2048 each have a bucket of their own. From there on the
//! bucket width doubles with every doubling of the value, so that a bucket is
//! never wider than a 1024th of the values it holds.

use vstd::arithmetic::div_mod::lemma_fundamental_div_mod;
use vstd::arithmetic::div_mod::lemma_mod_bound;
use vstd::arithmetic::div_mod::lemma_mod_breakdown;
use vstd::arithmetic::div_mod::lemma_mod_multiples_basic;
use vstd::arithmetic::mul::lemma_mul_is_commutative;
use vstd::prelude::*;

verus! {

/// The number of values that are told apart exactly: every value below it
/// has a bucket of width one.
pub const UNIT_RANGE: u64 = 2048;

/// The largest value that can be recorded.
pub const MAX_TRACKABLE_VALUE: u64 = 4611686018427387903;

/// The width of the bucket that holds `value`.
pub open spec fn width_of(value: nat) -> nat
    decreases value,
{
    if value < 2048 {
        1
    } else {
        2 * width_of(value / 2)
    }
}

/// The lowest value in the bucket that holds `value`.
pub open spec fn floor_of(value: nat) -> nat {
    (value - value % width_of(value)) as nat
}

/// The width of the bucket that holds `value`.
pub open spec fn bucket_width(value: u64) -> nat {
    width_of(value as nat)
}

/// The lowest value that is counted together with `value`.
pub open spec fn lowest_equivalent(value: u64) -> u64 {
    floor_of(value as nat) as u64
}

/// The lowest value above `value` that is not counted together with it,
/// capped at `u64::MAX`.
pub open spec fn next_non_equivalent(value: u64) -> u64 {
    let next = floor_of(value as nat) + width_of(value as nat);
    if next > u64::MAX {
        u64::MAX
    } else {
        next as u64
    }
}

/// The highest value that is counted together with `value`.
pub open spec fn highest_equivalent(value: u64) -> u64 {
    if value == u64::MAX {
        u64::MAX
    } else {
        (next_non_equivalent(value) - 1) as u64
    }
}

/// Whether `a` and `b` fall into one bucket.
pub open spec fn equivalent(a: u64, b: u64) -> bool {
    lowest_equivalent(a) == lowest_equivalent(b)
}

/// A bucket is at least one value wide, and from 2048 on its width lies
/// between a 2048th and a 1024th of each value in it.
pub proof fn lemma_width_band(value: nat)
    ensures
        width_of(value) >= 1,
        value < 2048 ==> width_of(value) == 1,
        value >= 2048 ==> 1024 * width_of(value) <= value < 2048 * width_of(value),
        value >= 2048 ==> width_of(value) >= 2,
    decreases value,
{
    if value >= 2048 {
        lemma_width_band(value / 2);
    }
}

/// The bucket of `value` starts at or below it and ends above it.
pub proof fn lemma_floor_bounds(value: nat)
    ensures
        floor_of(value) <= value < floor_of(value) + width_of(value),
        floor_of(value) % width_of(value) == 0,
        floor_of(value) == width_of(value) * (value / width_of(value)),
{
    lemma_width_band(value);
    let w = width_of(value) as int;
    let v = value as int;
    lemma_fundamental_div_mod(v, w);
    lemma_mod_bound(v, w);
    lemma_mod_multiples_basic(v / w, w);
    lemma_mul_is_commutative(v / w, w);
}

/// Halving a value of 2048 or more halves the start of its bucket.
proof fn lemma_floor_halves(value: nat)
    requires
        value >= 2048,
    ensures
        floor_of(value) == 2 * floor_of(value / 2),
{
    lemma_width_band(value / 2);
    let half_width = width_of(value / 2) as int;
    let v = value as int;
    lemma_mod_breakdown(v, 2, half_width);
    assert(v % (2 * half_width) == 2 * ((v / 2) % half_width) + v % 2);
    assert(v == 2 * (v / 2) + v % 2);
}

/// A bucket lies inside one band of values that share its width.
proof fn lemma_floor_band(value: nat)
    ensures
        floor_of(value) + width_of(value) <= 2048 * width_of(value),
        value >= 1024 ==> floor_of(value) >= 1024 * width_of(value),
    decreases value,
{
    lemma_width_band(value);
    if value >= 2048 {
        lemma_floor_band(value / 2);
        lemma_floor_halves(value);
    } else {
        assert(value % 1 == 0);
    }
}

/// Every value within a band has the band's bucket width.
proof fn lemma_width_in_band(other: nat, value: nat)
    requires
        value >= 2048,
        1024 * width_of(value) <= other < 2048 * width_of(value),
    ensures
        width_of(other) == width_of(value),
    decreases value,
{
    lemma_width_band(value);
    lemma_width_band(value / 2);
    assert(width_of(value) == 2 * width_of(value / 2));
    assert(other >= 2048);
    assert(width_of(other) == 2 * width_of(other / 2));
    if value / 2 >= 2048 {
        lemma_width_in_band(other / 2, value / 2);
    } else {
        assert(other / 2 < 2048);
    }
}

/// A value between the start and the end of the bucket of `value` falls into
/// that same bucket.
pub proof fn lemma_same_bucket(other: nat, value: nat)
    requires
        floor_of(value) <= other < floor_of(value) + width_of(value),
    ensures
        width_of(other) == width_of(value),
        floor_of(other) == floor_of(value),
{
    lemma_width_band(value);
    lemma_floor_bounds(value);
    lemma_floor_band(value);
    if value >= 2048 {
        lemma_width_in_band(other, value);
    } else {
        assert(value % 1 == 0);
    }
    lemma_floor_bounds(other);
    let w = width_of(value) as int;
    let q = (value / width_of(value)) as int;
    let p = (other / width_of(value)) as int;
    assert(p == q) by (nonlinear_arith)
        requires
            0 < w,
            w * q <= other < w * q + w,
            w * p <= other < w * p + w,
    ;
}

/// The start of a bucket is the start of its own bucket, and so is its end.
pub proof fn lemma_bucket_ends(value: u64)
    requires
        value <= MAX_TRACKABLE_VALUE,
    ensures
        lowest_equivalent(value) <= value <= highest_equivalent(value),
        highest_equivalent(value) == lowest_equivalent(value) + bucket_width(value) - 1,
        highest_equivalent(value) <= MAX_TRACKABLE_VALUE,
        lowest_equivalent(lowest_equivalent(value)) == lowest_equivalent(value),
        highest_equivalent(lowest_equivalent(value)) == highest_equivalent(value),
        lowest_equivalent(highest_equivalent(value)) == lowest_equivalent(value),
        highest_equivalent(highest_equivalent(value)) == highest_equivalent(value),
{
    let v = value as nat;
    lemma_width_band(v);
    lemma_floor_bounds(v);
    lemma_floor_band(v);
    lemma_top_of_range(v);
    lemma_same_bucket(floor_of(v), v);
    lemma_same_bucket((floor_of(v) + width_of(v) - 1) as nat, v);
}

/// A value whose bucket starts within the trackable range lies within it.
pub proof fn lemma_start_bounds_value(value: u64)
    requires
        lowest_equivalent(value) <= MAX_TRACKABLE_VALUE,
    ensures
        value <= MAX_TRACKABLE_VALUE,
{
    let v = value as nat;
    lemma_floor_bounds(v);
    lemma_same_bucket(floor_of(v), v);
    lemma_top_of_range(floor_of(v));
}

/// No bucket that starts within the trackable range reaches beyond it.
proof fn lemma_top_of_range(value: nat)
    requires
        value <= MAX_TRACKABLE_VALUE,
    ensures
        floor_of(value) + width_of(value) <= MAX_TRACKABLE_VALUE + 1,
{
    lemma_width_band(value);
    lemma_floor_bounds(value);
    let limit: nat = 4611686018427387904;
    if floor_of(value) + width_of(value) > limit {
        // The bucket would straddle 2^62, which is a multiple of every
        // bucket width up to 2^51.
        lemma_width_divides_limit(value);
        let w = width_of(value) as int;
        let q = (value / width_of(value)) as int;
        let k = limit as int / w;
        lemma_fundamental_div_mod(limit as int, w);
        assert(false) by (nonlinear_arith)
            requires
                0 < w,
                w * q < limit,
                w * q + w > limit,
                limit == w * k,
        ;
    }
}

/// Within the trackable range every bucket width divides 2^62.
proof fn lemma_width_divides_limit(value: nat)
    requires
        value <= MAX_TRACKABLE_VALUE,
    ensures
        4611686018427387904int % (width_of(value) as int) == 0,
{
    assert(two_to(51) == 2251799813685248) by {
        reveal_with_fuel(two_to, 52);
    }
    lemma_width_divides(value, 51);
    lemma_width_band(value);
    let w = width_of(value) as int;
    let t = two_to(51) as int;
    let k = t / w;
    lemma_fundamental_div_mod(t, w);
    assert(4611686018427387904int == (2048 * k) * w) by (nonlinear_arith)
        requires
            t == 2251799813685248,
            t == w * k,
    ;
    lemma_mod_multiples_basic(2048 * k, w);
}

/// Two to the power of `exponent`.
pub open spec fn two_to(exponent: nat) -> nat
    decreases exponent,
{
    if exponent == 0 {
        1
    } else {
        2 * two_to((exponent - 1) as nat)
    }
}

/// Below `2048 * 2^steps` every bucket width divides `2^steps`.
proof fn lemma_width_divides(value: nat, steps: nat)
    requires
        value < 2048 * two_to(steps),
    ensures
        two_to(steps) as int % (width_of(value) as int) == 0,
        width_of(value) <= two_to(steps),
    decreases steps,
{
    if value < 2048 {
        assert(two_to(steps) as int % 1 == 0);
        lemma_two_to_positive(steps);
    } else {
        lemma_two_to_positive(steps);
        if steps == 0 {
            assert(false);
        } else {
            let rest = (steps - 1) as nat;
            lemma_width_divides(value / 2, rest);
            lemma_width_band(value / 2);
            let w = width_of(value / 2) as int;
            let t = two_to(rest) as int;
            let k = t / w;
            lemma_fundamental_div_mod(t, w);
            assert(2 * t == k * (2 * w)) by (nonlinear_arith)
                requires
                    t == w * k,
            ;
            lemma_mod_multiples_basic(k, 2 * w);
        }
    }
}

/// A power of two is at least one.
proof fn lemma_two_to_positive(exponent: nat)
    ensures
        two_to(exponent) >= 1,
    decreases exponent,
{
    if exponent > 0 {
        lemma_two_to_positive((exponent - 1) as nat);
    }
}

/// Of two values in different buckets the smaller lies below the whole
/// bucket of the larger.
pub proof fn lemma_buckets_ordered(low: u64, high: u64)
    requires
        low <= high <= MAX_TRACKABLE_VALUE,
    ensures
        lowest_equivalent(low) <= lowest_equivalent(high),
        highest_equivalent(low) <= highest_equivalent(high),
        !equivalent(low, high) ==> highest_equivalent(low) < lowest_equivalent(high),
{
    lemma_bucket_ends(low);
    lemma_bucket_ends(high);
    let l = low as nat;
    let h = high as nat;
    lemma_floor_bounds(l);
    lemma_floor_bounds(h);
    if floor_of(h) <= l {
        lemma_same_bucket(l, h);
    } else if floor_of(l) + width_of(l) > floor_of(h) {
        lemma_same_bucket(floor_of(h), l);
        lemma_same_bucket(floor_of(h), h);
    }
}

/// The width of a bucket is at most a thousandth of the values it holds,
/// once values are no longer told apart exactly.
pub proof fn lemma_relative_error(value: u64)
    requires
        value <= MAX_TRACKABLE_VALUE,
    ensures
        value < UNIT_RANGE ==> lowest_equivalent(value) == value == highest_equivalent(value),
        value >= UNIT_RANGE ==> 1000 * (highest_equivalent(value) - lowest_equivalent(value))
            < value,
{
    lemma_bucket_ends(value);
    lemma_width_band(value as nat);
    lemma_floor_bounds(value as nat);
    if value < 2048 {
        assert(value as nat % 1 == 0);
    }
}

} // verus!
