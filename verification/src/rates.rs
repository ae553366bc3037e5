//! Rates of counters that only grow.

use crate::binary64::{
    at_most, below, integer, lemma_integer_bound, lemma_integer_zero, quotient, sum, Number, Real,
};
use crate::peaks::{elapsed, time_since, SECOND};
use vstd::arithmetic::power2::{lemma_pow2_pos, pow2};
use vstd::prelude::*;

verus! {

/// A time in nanoseconds as seconds.
pub open spec fn seconds(nanos: nat) -> Number {
    sum(integer(nanos / SECOND as nat), quotient(integer(nanos % SECOND as nat), integer(SECOND as nat)))
}

/// A time in nanoseconds as seconds.
pub fn to_seconds(nanos: u64) -> (r: Real)
    ensures
        r@ == seconds(nanos as nat),
{
    let part = Real::from_u64(nanos % SECOND).over(Real::from_u64(SECOND));
    Real::from_u64(nanos / SECOND).plus(part)
}

/// How much a counter has grown; nothing where it has started anew.
pub open spec fn growth(before: nat, after: nat) -> nat {
    if before <= after {
        (after - before) as nat
    } else {
        0
    }
}

/// The rate per second at which a counter has grown since it was last read; none
/// where no time has passed.
pub open spec fn rate(before: nat, then: u64, after: nat, now: u64) -> Number {
    let time = seconds(elapsed(then, now) as nat);
    if below(integer(0), time) {
        quotient(integer(growth(before, after)), time)
    } else {
        integer(0)
    }
}

/// The rate per second at which a counter has grown since it was last read.
pub fn rate_of(before: u64, then: u64, after: u64, now: u64) -> (r: Real)
    ensures
        r@ == rate(before as nat, then, after as nat, now),
{
    let time = to_seconds(time_since(then, now));
    if Real::from_u64(0).less_than(&time) {
        let grown: u64 = if before <= after {
            after - before
        } else {
            0
        };
        Real::from_u64(grown).over(time)
    } else {
        Real::from_u64(0)
    }
}

/// A rate is a number, and never a negative one, also where a counter has started
/// anew.
pub proof fn law_rate_is_not_negative(before: nat, then: u64, after: nat, now: u64)
    requires
        after <= u64::MAX,
    ensures
        rate(before, then, after, now) !is Nan,
        at_most(integer(0), rate(before, then, after, now)),
{
    lemma_integer_zero();
    assert(0 * pow2(0) == 0) by (nonlinear_arith);
    assert(integer(0).signed() == 0);
    let time = seconds(elapsed(then, now) as nat);
    if below(integer(0), time) {
        lemma_integer_bound(growth(before, after));
        lemma_pow2_pos(1074);
        let r = rate(before, then, after, now);
        assert(r is Finite ==> r.signed() >= 0);
        if time is Finite {
            assert(time->mantissa > 0) by {
                if time->mantissa == 0 {
                    assert(0 * pow2(time->scale) == 0) by (nonlinear_arith);
                }
            }
        }
    }
}

} // verus!
