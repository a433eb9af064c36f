//! Splitting a whole number of units by ratios, with nothing lost to rounding.
//!
//! Every ratio first gets its proportional part rounded down. What the
//! rounding left over is then handed out one unit at a time, to the first
//! ratio first.

use vstd::prelude::*;
use vstd::arithmetic::div_mod::lemma_fundamental_div_mod;
use crate::sums::sum;

verus! {

/// The sum of the ratios.
pub open spec fn ratio_total(ratios: Seq<i32>) -> int
    decreases ratios.len(),
{
    if ratios.len() == 0 {
        0
    } else {
        ratio_total(ratios.drop_last()) + ratios.last()
    }
}

/// Whether the ratios can divide an amount: there is one, and none is zero or less.
pub open spec fn valid_ratios(ratios: Seq<i32>) -> bool {
    &&& ratios.len() > 0
    &&& forall|i: int| 0 <= i < ratios.len() ==> ratios[i] > 0
}

/// The part of `units` that falls to `ratio` out of `total`, rounded down.
pub open spec fn floor_share(units: int, ratio: int, total: int) -> int {
    (units * ratio) / total
}

/// The sum of the rounded-down parts of all `ratios` out of `total`.
pub open spec fn floor_sum(units: int, ratios: Seq<i32>, total: int) -> int
    decreases ratios.len(),
{
    if ratios.len() == 0 {
        0
    } else {
        floor_sum(units, ratios.drop_last(), total) + floor_share(
            units,
            ratios.last() as int,
            total,
        )
    }
}

/// The units that rounding down has left to hand out.
pub open spec fn leftover(units: int, ratios: Seq<i32>) -> int {
    units - floor_sum(units, ratios, ratio_total(ratios))
}

/// The share of the ratio at `index`: its rounded-down part, and one unit
/// more for each of the first `leftover` ratios.
pub open spec fn share(units: int, ratios: Seq<i32>, index: int) -> int {
    floor_share(units, ratios[index] as int, ratio_total(ratios)) + if index < leftover(
        units,
        ratios,
    ) {
        1int
    } else {
        0int
    }
}

/// The units left over that go to the first `count` ratios: one each, as
/// far as they reach.
pub open spec fn handed_out(units: int, ratios: Seq<i32>, count: int) -> int {
    if count < leftover(units, ratios) {
        count
    } else {
        leftover(units, ratios)
    }
}

/// The shares of all ratios, in the order of the ratios.
pub open spec fn shares(units: int, ratios: Seq<i32>) -> Seq<int> {
    Seq::new(ratios.len(), |i: int| share(units, ratios, i))
}

/// The total of ratios that are all above zero is at least their number.
pub proof fn lemma_ratio_total_bounds(ratios: Seq<i32>)
    requires
        forall|i: int| 0 <= i < ratios.len() ==> ratios[i] > 0,
    ensures
        ratios.len() <= ratio_total(ratios) <= ratios.len() * i32::MAX,
        forall|i: int| 0 <= i < ratios.len() ==> ratios[i] <= ratio_total(ratios),
    decreases ratios.len(),
{
    if ratios.len() > 0 {
        let front = ratios.drop_last();
        lemma_ratio_total_bounds(front);
        assert(ratios.len() * i32::MAX == front.len() * i32::MAX + i32::MAX) by (nonlinear_arith)
            requires
                ratios.len() == front.len() + 1,
        ;
        assert forall|i: int| 0 <= i < ratios.len() implies ratios[i] <= ratio_total(ratios) by {
            if i < front.len() {
                assert(front[i] == ratios[i]);
            }
        }
    }
}

/// A rounded-down part times the total is at most `units * ratio`, and
/// falls short of it by less than the total.
pub proof fn lemma_floor_share(units: int, ratio: int, total: int)
    requires
        total > 0,
    ensures
        floor_share(units, ratio, total) * total <= units * ratio,
        units * ratio <= floor_share(units, ratio, total) * total + (total - 1),
{
    let x = units * ratio;
    lemma_fundamental_div_mod(x, total);
    assert(total * (x / total) == (x / total) * total) by (nonlinear_arith);
}

/// A rounded-down part lies between zero and `units`.
pub proof fn lemma_floor_share_range(units: int, ratio: int, total: int)
    requires
        0 < ratio <= total,
    ensures
        units >= 0 ==> 0 <= floor_share(units, ratio, total) <= units,
        units < 0 ==> units <= floor_share(units, ratio, total) < 0,
{
    lemma_floor_share(units, ratio, total);
    let q = floor_share(units, ratio, total);
    if units >= 0 {
        assert(q >= 0 && q <= units) by (nonlinear_arith)
            requires
                q * total <= units * ratio,
                units * ratio <= q * total + (total - 1),
                0 < ratio <= total,
                units >= 0,
        ;
    } else {
        assert(q < 0 && q >= units) by (nonlinear_arith)
            requires
                q * total <= units * ratio,
                units * ratio <= q * total + (total - 1),
                0 < ratio <= total,
                units < 0,
        ;
    }
}

/// The rounded-down parts of a run of ratios fall short of their exact
/// parts by less than one unit for each ratio.
pub proof fn lemma_floor_sum(units: int, ratios: Seq<i32>, total: int)
    requires
        total > 0,
    ensures
        floor_sum(units, ratios, total) * total <= units * ratio_total(ratios),
        units * ratio_total(ratios) <= floor_sum(units, ratios, total) * total + ratios.len() * (
        total - 1),
    decreases ratios.len(),
{
    if ratios.len() > 0 {
        let front = ratios.drop_last();
        let r = ratios.last() as int;
        lemma_floor_sum(units, front, total);
        lemma_floor_share(units, r, total);
        let p = floor_sum(units, front, total);
        let q = floor_share(units, r, total);
        let t = ratio_total(front);
        assert((p + q) * total == p * total + q * total) by (nonlinear_arith);
        assert(units * (t + r) == units * t + units * r) by (nonlinear_arith);
        assert(ratios.len() * (total - 1) == front.len() * (total - 1) + (total - 1))
            by (nonlinear_arith)
            requires
                ratios.len() == front.len() + 1,
        ;
    } else {
        assert(units * 0 == 0) by (nonlinear_arith);
    }
}

/// Rounding down leaves fewer units over than there are ratios, and never
/// takes more than there is.
pub proof fn lemma_leftover_bounds(units: int, ratios: Seq<i32>)
    requires
        valid_ratios(ratios),
    ensures
        0 <= leftover(units, ratios) < ratios.len(),
{
    let total = ratio_total(ratios);
    lemma_ratio_total_bounds(ratios);
    lemma_floor_sum(units, ratios, total);
    let p = floor_sum(units, ratios, total);
    let n = ratios.len() as int;
    assert(0 <= units - p < n) by (nonlinear_arith)
        requires
            p * total <= units * total,
            units * total <= p * total + n * (total - 1),
            total > 0,
            n > 0,
    ;
}

/// With ratios that are all above zero, the rounded-down parts of a
/// non-negative amount add up to something between each part and the amount.
pub proof fn lemma_floor_sum_range(units: int, ratios: Seq<i32>, total: int)
    requires
        forall|i: int| 0 <= i < ratios.len() ==> 0 < #[trigger] ratios[i] <= total,
    ensures
        units >= 0 ==> 0 <= floor_sum(units, ratios, total),
        units >= 0 ==> forall|i: int|
            0 <= i < ratios.len() ==> #[trigger] floor_share(units, ratios[i] as int, total)
                <= floor_sum(units, ratios, total),
    decreases ratios.len(),
{
    if ratios.len() > 0 {
        let front = ratios.drop_last();
        assert forall|i: int| 0 <= i < front.len() implies 0 < #[trigger] front[i] <= total by {
            assert(front[i] == ratios[i]);
        }
        lemma_floor_sum_range(units, front, total);
        lemma_floor_share_range(units, ratios.last() as int, total);
        if units >= 0 {
            assert forall|i: int| 0 <= i < ratios.len() implies #[trigger] floor_share(
                units,
                ratios[i] as int,
                total,
            ) <= floor_sum(units, ratios, total) by {
                if i < front.len() {
                    assert(front[i] == ratios[i]);
                }
            }
        }
    }
}

/// Every share lies between zero and the amount, on the amount's side of zero.
pub proof fn lemma_share_range(units: int, ratios: Seq<i32>, index: int)
    requires
        valid_ratios(ratios),
        0 <= index < ratios.len(),
    ensures
        units >= 0 ==> 0 <= share(units, ratios, index) <= units,
        units < 0 ==> units <= share(units, ratios, index) <= 0,
{
    let total = ratio_total(ratios);
    lemma_ratio_total_bounds(ratios);
    lemma_leftover_bounds(units, ratios);
    lemma_floor_share_range(units, ratios[index] as int, total);
    lemma_floor_sum_range(units, ratios, total);
}

/// The sum of the first `count` shares is the sum of their rounded-down
/// parts and of the units handed out among them.
proof fn lemma_shares_prefix(units: int, ratios: Seq<i32>, count: int)
    requires
        0 <= count <= ratios.len(),
        0 <= leftover(units, ratios),
    ensures
        sum(shares(units, ratios).take(count)) == floor_sum(
            units,
            ratios.take(count),
            ratio_total(ratios),
        ) + handed_out(units, ratios, count),
    decreases count,
{
    let all = shares(units, ratios);
    if count > 0 {
        lemma_shares_prefix(units, ratios, count - 1);
        assert(all.take(count).drop_last() =~= all.take(count - 1));
        assert(ratios.take(count).drop_last() =~= ratios.take(count - 1));
    } else {
        assert(all.take(0).len() == 0);
    }
}

/// The shares add up to the amount that was divided: rounding loses nothing.
pub proof fn law_shares_sum(units: int, ratios: Seq<i32>)
    requires
        valid_ratios(ratios),
    ensures
        shares(units, ratios).len() == ratios.len(),
        sum(shares(units, ratios)) == units,
{
    lemma_leftover_bounds(units, ratios);
    lemma_shares_prefix(units, ratios, ratios.len() as int);
    assert(shares(units, ratios).take(ratios.len() as int) =~= shares(units, ratios));
    assert(ratios.take(ratios.len() as int) =~= ratios);
}

/// The shares of an amount that is not negative are not negative either.
pub proof fn law_shares_not_negative(units: int, ratios: Seq<i32>)
    requires
        valid_ratios(ratios),
        units >= 0,
    ensures
        forall|i: int| 0 <= i < ratios.len() ==> 0 <= #[trigger] shares(units, ratios)[i] <= units,
{
    assert forall|i: int| 0 <= i < ratios.len() implies 0 <= #[trigger] shares(units, ratios)[i]
        <= units by {
        lemma_share_range(units, ratios, i);
    }
}

} // verus!
