//! Fixed-point arithmetic for conversion rates and amounts.
//!
//! A rate is a `u64` in parts per million (`RATE_SCALE`): a rate of
//! `1_000_000` converts one unit of the source asset into exactly one unit of
//! the destination asset. Amounts are `u64` values in units of 1e-7 of an
//! asset (`AMOUNT_SCALE` amount units make one whole asset unit).

use vstd::prelude::*;
use vstd::arithmetic::div_mod::{lemma_div_is_ordered, lemma_div_multiples_vanish, lemma_div_pos_is_pos};
use vstd::arithmetic::mul::{lemma_mul_inequality, lemma_mul_nonnegative, lemma_mul_upper_bound};

verus! {

/// One whole, expressed in parts per million: the scale of all rates.
pub const RATE_SCALE: u64 = 1_000_000;

/// Amount units per whole asset unit.
pub const AMOUNT_SCALE: u64 = 10_000_000;

/// Basis points in one whole.
pub const BPS_SCALE: u64 = 10_000;

/// The exact value obtained by applying `rate_ppm` to `amount`, rounding down.
pub open spec fn rate_applied(amount: u64, rate_ppm: u64) -> int {
    (amount * rate_ppm) / (RATE_SCALE as int)
}

/// Applies a conversion rate to an amount, rounding down; `None` when the
/// result does not fit in an amount.
pub fn apply_rate(amount: u64, rate_ppm: u64) -> (r: Option<u64>)
    ensures
        match r {
            Some(v) => v == rate_applied(amount, rate_ppm),
            None => rate_applied(amount, rate_ppm) > u64::MAX,
        },
{
    proof {
        assert((amount as int) * (rate_ppm as int) <= (u64::MAX as int) * (u64::MAX as int))
            by (nonlinear_arith)
            requires
                amount <= u64::MAX,
                rate_ppm <= u64::MAX,
        ;
    }
    let wide: u128 = (amount as u128) * (rate_ppm as u128) / (RATE_SCALE as u128);
    if wide <= u64::MAX as u128 {
        Some(wide as u64)
    } else {
        None
    }
}

/// Applying a rate of at most one whole never increases the amount.
pub proof fn lemma_rate_applied_le(amount: u64, rate_ppm: u64)
    requires
        rate_ppm <= RATE_SCALE,
    ensures
        0 <= rate_applied(amount, rate_ppm) <= amount,
{
    lemma_mul_nonnegative(amount as int, rate_ppm as int);
    lemma_div_pos_is_pos((amount * rate_ppm) as int, RATE_SCALE as int);
    lemma_mul_inequality(rate_ppm as int, RATE_SCALE as int, amount as int);
    lemma_div_is_ordered((amount * rate_ppm) as int, (amount * RATE_SCALE) as int, RATE_SCALE as int);
    lemma_div_multiples_vanish(amount as int, RATE_SCALE as int);
}

/// Applies a rate known not to exceed one whole; the result fits an amount.
pub fn apply_rate_bounded(amount: u64, rate_ppm: u64) -> (r: u64)
    requires
        rate_ppm <= RATE_SCALE,
    ensures
        r == rate_applied(amount, rate_ppm),
        r <= amount,
{
    proof {
        lemma_rate_applied_le(amount, rate_ppm);
        lemma_mul_upper_bound(amount as int, u64::MAX as int, rate_ppm as int, RATE_SCALE as int);
    }
    ((amount as u128) * (rate_ppm as u128) / (RATE_SCALE as u128)) as u64
}

/// The amount left after converting `amount` through each rate in order,
/// rounding down at every step.
pub open spec fn compound_int(amount: int, rates: Seq<u64>) -> int
    decreases rates.len(),
{
    if rates.len() == 0 {
        amount
    } else {
        compound_int((amount * rates[0]) / (RATE_SCALE as int), rates.drop_first())
    }
}

/// Compounding through one more rate at the end.
pub proof fn lemma_compound_push(amount: int, rates: Seq<u64>, r: u64)
    ensures
        compound_int(amount, rates.push(r)) == (compound_int(amount, rates) * r) / (
        RATE_SCALE as int),
    decreases rates.len(),
{
    if rates.len() == 0 {
        assert(rates.push(r)[0] == r);
        assert(rates.push(r).drop_first() =~= Seq::<u64>::empty());
        assert(compound_int((amount * r) / (RATE_SCALE as int), Seq::<u64>::empty()) == (amount
            * r) / (RATE_SCALE as int));
    } else {
        assert(rates.push(r)[0] == rates[0]);
        assert(rates.push(r).drop_first() =~= rates.drop_first().push(r));
        lemma_compound_push((amount * rates[0]) / (RATE_SCALE as int), rates.drop_first(), r);
    }
}

/// Compounding is monotone in the starting amount.
pub proof fn lemma_compound_monotone(a1: int, a2: int, rates: Seq<u64>)
    requires
        0 <= a1 <= a2,
    ensures
        compound_int(a1, rates) <= compound_int(a2, rates),
    decreases rates.len(),
{
    if rates.len() > 0 {
        lemma_mul_inequality(a1, a2, rates[0] as int);
        lemma_div_is_ordered(a1 * rates[0], a2 * rates[0], RATE_SCALE as int);
        lemma_mul_nonnegative(a1, rates[0] as int);
        lemma_div_pos_is_pos(a1 * rates[0], RATE_SCALE as int);
        lemma_compound_monotone(
            (a1 * rates[0]) / (RATE_SCALE as int),
            (a2 * rates[0]) / (RATE_SCALE as int),
            rates.drop_first(),
        );
    }
}

/// Compounding is monotone in the rates, hop by hop.
pub proof fn lemma_compound_pointwise_le(amount: int, r1: Seq<u64>, r2: Seq<u64>)
    requires
        0 <= amount,
        r1.len() == r2.len(),
        forall|i: int| 0 <= i < r1.len() ==> #[trigger] r1[i] <= r2[i],
    ensures
        compound_int(amount, r1) <= compound_int(amount, r2),
    decreases r1.len(),
{
    if r1.len() > 0 {
        let n1 = (amount * r1[0]) / (RATE_SCALE as int);
        let n2 = (amount * r2[0]) / (RATE_SCALE as int);
        lemma_mul_inequality(r1[0] as int, r2[0] as int, amount);
        lemma_div_is_ordered(amount * r1[0], amount * r2[0], RATE_SCALE as int);
        lemma_mul_nonnegative(amount, r1[0] as int);
        lemma_div_pos_is_pos(amount * r1[0], RATE_SCALE as int);
        lemma_compound_monotone(n1, n2, r1.drop_first());
        assert(forall|i: int| 0 <= i < r1.drop_first().len()
            ==> #[trigger] r1.drop_first()[i] <= r2.drop_first()[i]);
        lemma_compound_pointwise_le(n2, r1.drop_first(), r2.drop_first());
    }
}

/// One conversion step that saturates at the largest representable amount.
pub open spec fn capped_step(amount: int, rate_ppm: u64) -> int {
    let v = (amount * rate_ppm) / (RATE_SCALE as int);
    if v > u64::MAX as int {
        u64::MAX as int
    } else {
        v
    }
}

/// Compounding that saturates at the largest representable amount at every
/// step; it agrees with `compound_int` as long as nothing saturates.
pub open spec fn compound_capped(amount: int, rates: Seq<u64>) -> int
    decreases rates.len(),
{
    if rates.len() == 0 {
        amount
    } else {
        compound_capped(capped_step(amount, rates[0]), rates.drop_first())
    }
}

/// Capped compounding through one more rate at the end.
pub proof fn lemma_compound_capped_push(amount: int, rates: Seq<u64>, r: u64)
    ensures
        compound_capped(amount, rates.push(r)) == capped_step(compound_capped(amount, rates), r),
    decreases rates.len(),
{
    if rates.len() == 0 {
        assert(rates.push(r)[0] == r);
        assert(rates.push(r).drop_first() =~= Seq::<u64>::empty());
        assert(compound_capped(capped_step(amount, r), Seq::<u64>::empty()) == capped_step(
            amount,
            r,
        ));
    } else {
        assert(rates.push(r)[0] == rates[0]);
        assert(rates.push(r).drop_first() =~= rates.drop_first().push(r));
        lemma_compound_capped_push(capped_step(amount, rates[0]), rates.drop_first(), r);
    }
}

/// A representable starting amount keeps every capped compound representable.
pub proof fn lemma_compound_capped_bounds(amount: int, rates: Seq<u64>)
    requires
        0 <= amount <= u64::MAX,
    ensures
        0 <= compound_capped(amount, rates) <= u64::MAX,
    decreases rates.len(),
{
    if rates.len() > 0 {
        lemma_mul_nonnegative(amount, rates[0] as int);
        lemma_div_pos_is_pos(amount * rates[0], RATE_SCALE as int);
        lemma_compound_capped_bounds(capped_step(amount, rates[0]), rates.drop_first());
    }
}

/// When the plain compound of every prefix stays representable, nothing
/// saturates and the capped compound is the plain one.
pub proof fn lemma_compound_capped_exact(amount: int, rates: Seq<u64>)
    requires
        0 <= amount,
        forall|k: int|
            0 <= k <= rates.len() ==> compound_int(amount, #[trigger] rates.take(k))
                <= u64::MAX as int,
    ensures
        compound_capped(amount, rates) == compound_int(amount, rates),
    decreases rates.len(),
{
    if rates.len() > 0 {
        let next = (amount * rates[0]) / (RATE_SCALE as int);
        assert(rates.take(1).len() == 1);
        assert(rates.take(1)[0] == rates[0]);
        assert(rates.take(1).drop_first() =~= Seq::<u64>::empty());
        assert(compound_int(next, Seq::<u64>::empty()) == next);
        assert(compound_int(amount, rates.take(1)) == next);
        assert(next <= u64::MAX as int);
        lemma_mul_nonnegative(amount, rates[0] as int);
        lemma_div_pos_is_pos(amount * rates[0], RATE_SCALE as int);
        assert forall|k: int|
            0 <= k <= rates.drop_first().len() implies compound_int(
            next,
            #[trigger] rates.drop_first().take(k),
        ) <= u64::MAX as int by {
            assert(rates.take(k + 1)[0] == rates[0]);
            assert(rates.take(k + 1).drop_first() =~= rates.drop_first().take(k));
            assert(compound_int(amount, rates.take(k + 1)) == compound_int(
                next,
                rates.drop_first().take(k),
            ));
        }
        lemma_compound_capped_exact(next, rates.drop_first());
    }
}

/// Division rounding towards positive infinity (for positive divisors).
pub open spec fn ceil_div(a: int, b: int) -> int {
    (a + b - 1) / b
}

/// The amount that must enter the chain of rates so that, after every hop
/// rounds down, at least `amount` comes out: each hop is inverted with a
/// ceiling division, starting from the last.
pub open spec fn invert_compound(amount: int, rates: Seq<u64>) -> int
    decreases rates.len(),
{
    if rates.len() == 0 {
        amount
    } else {
        invert_compound(
            ceil_div(amount * (RATE_SCALE as int), rates.last() as int),
            rates.drop_last(),
        )
    }
}

/// Unfolding the inversion at the front instead of the back.
pub proof fn lemma_invert_unfold_front(amount: int, rates: Seq<u64>)
    requires
        rates.len() >= 1,
    ensures
        invert_compound(amount, rates) == ceil_div(
            invert_compound(amount, rates.drop_first()) * (RATE_SCALE as int),
            rates[0] as int,
        ),
    decreases rates.len(),
{
    if rates.len() == 1 {
        let inner = ceil_div(amount * (RATE_SCALE as int), rates.last() as int);
        assert(rates.drop_last() =~= Seq::<u64>::empty());
        assert(rates.drop_first() =~= Seq::<u64>::empty());
        assert(invert_compound(inner, Seq::<u64>::empty()) == inner);
        assert(invert_compound(amount, Seq::<u64>::empty()) == amount);
        assert(invert_compound(amount, rates) == inner);
        assert(invert_compound(amount, rates.drop_first()) == amount);
        assert(rates.last() == rates[0]);
    } else {
        let inner = ceil_div(amount * (RATE_SCALE as int), rates.last() as int);
        lemma_invert_unfold_front(inner, rates.drop_last());
        assert(rates.drop_last()[0] == rates[0]);
        assert(rates.drop_last().drop_first() =~= rates.drop_first().drop_last());
        assert(rates.drop_first().last() == rates.last());
        assert(invert_compound(inner, rates.drop_last().drop_first()) == invert_compound(
            amount,
            rates.drop_first(),
        )) by {
            assert(invert_compound(amount, rates.drop_first()) == invert_compound(
                ceil_div(amount * (RATE_SCALE as int), rates.drop_first().last() as int),
                rates.drop_first().drop_last(),
            ));
        }
    }
}

/// Inverting rates of at most one whole never shrinks the amount.
pub proof fn lemma_invert_ge(amount: int, rates: Seq<u64>)
    requires
        0 <= amount,
        forall|i: int| 0 <= i < rates.len() ==> 1 <= #[trigger] rates[i] <= RATE_SCALE,
    ensures
        invert_compound(amount, rates) >= amount,
    decreases rates.len(),
{
    if rates.len() > 0 {
        let r = rates.last() as int;
        assert(rates.last() == rates[rates.len() - 1]);
        assert(1 <= rates[rates.len() - 1] <= RATE_SCALE);
        let next = ceil_div(amount * (RATE_SCALE as int), r);
        lemma_mul_inequality(r, RATE_SCALE as int, amount);
        assert(amount * r <= amount * (RATE_SCALE as int) + r - 1);
        lemma_div_is_ordered(amount * r, amount * (RATE_SCALE as int) + r - 1, r);
        lemma_div_multiples_vanish(amount, r);
        assert((amount * r) / r == amount);
        assert(next >= amount);
        assert forall|i: int|
            0 <= i < rates.drop_last().len() implies 1 <= #[trigger] rates.drop_last()[i]
            <= RATE_SCALE by {
            assert(rates.drop_last()[i] == rates[i]);
        }
        lemma_invert_ge(next, rates.drop_last());
    }
}

/// Inverting the whole chain is inverting a suffix, then the rest.
pub proof fn lemma_invert_split(amount: int, rates: Seq<u64>, k: int)
    requires
        0 <= k <= rates.len(),
    ensures
        invert_compound(amount, rates) == invert_compound(
            invert_compound(amount, rates.skip(k)),
            rates.take(k),
        ),
    decreases rates.len() - k,
{
    if k == rates.len() {
        assert(rates.skip(k) =~= Seq::<u64>::empty());
        assert(rates.take(k) =~= rates);
    } else {
        lemma_invert_split(amount, rates, k + 1);
        lemma_invert_unfold_front(amount, rates.skip(k));
        assert(rates.skip(k).drop_first() =~= rates.skip(k + 1));
        assert(rates.skip(k)[0] == rates[k]);
        assert(rates.take(k + 1).last() == rates[k]);
        assert(rates.take(k + 1).drop_last() =~= rates.take(k));
        let inner = invert_compound(amount, rates.skip(k + 1));
        assert(invert_compound(inner, rates.take(k + 1)) == invert_compound(
            ceil_div(inner * (RATE_SCALE as int), rates[k] as int),
            rates.take(k),
        ));
        assert(invert_compound(amount, rates.skip(k)) == ceil_div(
            inner * (RATE_SCALE as int),
            rates[k] as int,
        ));
    }
}

} // verus!
