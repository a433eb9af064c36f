//! What clearing one group does.
//!
//! A group whose balances add up to zero is cleared among its own members:
//! every member ends at zero, nobody else is touched, and it takes fewer
//! payments than the group has members.

use vstd::prelude::*;
use crate::combinations::is_group;
use crate::settlement::{
    clear_debtor, clear_keys, creditors_of, debtors_of, group_total, keys_in_range,
    lemma_creditors_of, lemma_debtors_of, lemma_debtors_or_creditors_cleared,
    lemma_toward_zero_twice, pay, payment_amount, payment_due, settle_group, toward_zero,
    Settlement,
};
use crate::sums::{
    all_zero, lemma_nonzero_count_bounds, lemma_nonzero_count_not_one,
    lemma_nonzero_count_update, lemma_sum_of_not_negative, lemma_sum_of_not_positive,
    lemma_sum_update, nonzero_count, spare, sum,
};

verus! {

/// The balances at the places of `group`, in the order of the group.
pub open spec fn values_at(balances: Seq<int>, group: Seq<int>) -> Seq<int> {
    Seq::new(group.len(), |i: int| balances[group[i]])
}

/// Whether `after` has come from `before` by payments among the members of
/// `group` alone: no balance outside the group has changed, none has moved
/// away from zero, the balances of the group add up to what they did, and
/// where that is zero, the payments are fewer than the members that had a
/// balance to clear.
pub open spec fn cleared_within(group: Seq<int>, before: Settlement, after: Settlement) -> bool {
    &&& toward_zero(before.balances, after.balances)
    &&& forall|p: int|
        0 <= p < before.balances.len() && !group.contains(p) ==> #[trigger] after.balances[p]
            == before.balances[p]
    &&& sum(values_at(after.balances, group)) == sum(values_at(before.balances, group))
    &&& before.payments.len() <= after.payments.len()
    &&& forall|k: int|
        0 <= k < before.payments.len() ==> #[trigger] after.payments[k] == before.payments[k]
    &&& forall|k: int|
        before.payments.len() <= k < after.payments.len() ==> group.contains(
            (#[trigger] after.payments[k]).debtor,
        ) && group.contains(after.payments[k].creditor) && after.payments[k].amount > 0
    &&& after.payments.len() - before.payments.len() + nonzero_count(
        values_at(after.balances, group),
    ) <= nonzero_count(values_at(before.balances, group))
    &&& sum(values_at(before.balances, group)) == 0 ==> after.payments.len()
        - before.payments.len() + spare(values_at(after.balances, group)) <= spare(
        values_at(before.balances, group),
    )
}

/// The sum of the balances of a group is the sum of the balances at its
/// places.
pub proof fn lemma_group_total(balances: Seq<int>, group: Seq<int>)
    ensures
        group_total(balances, group) == sum(values_at(balances, group)),
    decreases group.len(),
{
    if group.len() > 0 {
        lemma_group_total(balances, group.drop_last());
        assert(values_at(balances, group).drop_last() =~= values_at(balances, group.drop_last()));
    }
}

/// A new balance at a place of a group is a new entry among the balances
/// of the group.
proof fn lemma_values_at_update(balances: Seq<int>, group: Seq<int>, at: int, value: int)
    requires
        is_group(group, 0, balances.len() as int),
        0 <= at < group.len(),
    ensures
        values_at(balances.update(group[at], value), group) == values_at(balances, group).update(
            at,
            value,
        ),
{
    let changed = values_at(balances.update(group[at], value), group);
    let expected = values_at(balances, group).update(at, value);
    assert forall|i: int| 0 <= i < group.len() implies changed[i] == expected[i] by {
        if i < at {
            assert(group[i] < group[at]);
        } else if i > at {
            assert(group[at] < group[i]);
        }
    }
}

/// Nothing has happened yet: a state has come from itself.
pub proof fn lemma_cleared_within_start(group: Seq<int>, state: Settlement)
    ensures
        cleared_within(group, state, state),
{
    lemma_nonzero_count_bounds(values_at(state.balances, group));
}

/// One payment between members of a group keeps a state among those that
/// have come from `before` by payments within the group.
pub proof fn lemma_pay_within(
    group: Seq<int>,
    before: Settlement,
    state: Settlement,
    debtor: int,
    creditor: int,
)
    requires
        is_group(group, 0, before.balances.len() as int),
        cleared_within(group, before, state),
        group.contains(debtor),
        group.contains(creditor),
    ensures
        cleared_within(group, before, pay(state, debtor, creditor)),
{
    let balances = state.balances;
    let next = pay(state, debtor, creditor);
    if payment_due(balances, debtor, creditor) {
        let amount = payment_amount(balances, debtor, creditor);
        let i = choose|i: int| 0 <= i < group.len() && group[i] == debtor;
        let j = choose|j: int| 0 <= j < group.len() && group[j] == creditor;
        let first = balances.update(debtor, balances[debtor] + amount);
        let held = values_at(balances, group);
        let held_first = values_at(first, group);
        let held_next = values_at(next.balances, group);
        lemma_values_at_update(balances, group, i, balances[debtor] + amount);
        lemma_values_at_update(first, group, j, balances[creditor] - amount);
        lemma_sum_update(held, i, balances[debtor] + amount);
        lemma_sum_update(held_first, j, balances[creditor] - amount);
        lemma_nonzero_count_update(held, i, balances[debtor] + amount);
        lemma_nonzero_count_update(held_first, j, balances[creditor] - amount);
        lemma_nonzero_count_bounds(held_next);
        if sum(values_at(before.balances, group)) == 0 {
            lemma_nonzero_count_not_one(held_next);
            if held_next[i] != 0 || held_next[j] != 0 {
                assert(!all_zero(held_next));
            }
        }
        lemma_toward_zero_twice(before.balances, state.balances, next.balances);
        assert forall|k: int| 0 <= k < before.payments.len() implies #[trigger] next.payments[k]
            == before.payments[k] by {
            assert(next.payments[k] == state.payments[k]);
        }
        assert forall|k: int| before.payments.len() <= k < next.payments.len() implies group.contains(
            (#[trigger] next.payments[k]).debtor,
        ) && group.contains(next.payments[k].creditor) && next.payments[k].amount > 0 by {
            if k < state.payments.len() {
                assert(next.payments[k] == state.payments[k]);
            }
        }
        assert forall|p: int|
            0 <= p < before.balances.len() && !group.contains(p) implies #[trigger] next.balances[p]
            == before.balances[p] by {
            assert(state.balances[p] == before.balances[p]);
        }
    }
}

/// A member paying members keeps a state among those that have come from
/// `before` by payments within the group.
pub proof fn lemma_clear_debtor_within(
    group: Seq<int>,
    before: Settlement,
    state: Settlement,
    debtor: int,
    creditors: Seq<int>,
)
    requires
        is_group(group, 0, before.balances.len() as int),
        cleared_within(group, before, state),
        group.contains(debtor),
        forall|j: int| 0 <= j < creditors.len() ==> group.contains(#[trigger] creditors[j]),
    ensures
        cleared_within(group, before, clear_debtor(state, debtor, creditors)),
    decreases creditors.len(),
{
    if creditors.len() > 0 {
        let front = creditors.drop_last();
        assert forall|j: int| 0 <= j < front.len() implies group.contains(#[trigger] front[j]) by {
            assert(front[j] == creditors[j]);
        }
        lemma_clear_debtor_within(group, before, state, debtor, front);
        lemma_pay_within(
            group,
            before,
            clear_debtor(state, debtor, front),
            debtor,
            creditors.last(),
        );
    }
}

/// Members paying members keeps a state among those that have come from
/// `before` by payments within the group.
pub proof fn lemma_clear_keys_within(
    group: Seq<int>,
    before: Settlement,
    state: Settlement,
    debtors: Seq<int>,
    creditors: Seq<int>,
)
    requires
        is_group(group, 0, before.balances.len() as int),
        cleared_within(group, before, state),
        forall|i: int| 0 <= i < debtors.len() ==> group.contains(#[trigger] debtors[i]),
        forall|j: int| 0 <= j < creditors.len() ==> group.contains(#[trigger] creditors[j]),
    ensures
        cleared_within(group, before, clear_keys(state, debtors, creditors)),
    decreases debtors.len(),
{
    if debtors.len() > 0 {
        let front = debtors.drop_last();
        assert forall|i: int| 0 <= i < front.len() implies group.contains(#[trigger] front[i]) by {
            assert(front[i] == debtors[i]);
        }
        lemma_clear_keys_within(group, before, state, front, creditors);
        lemma_clear_debtor_within(
            group,
            before,
            clear_keys(state, front, creditors),
            debtors.last(),
            creditors,
        );
    }
}

/// A group whose balances add up to zero is cleared among its own members:
/// every member ends at zero, no balance outside the group changes, the
/// payments already made stay as they are, and the new payments, each
/// between two members, are fewer than the members that had a balance to
/// clear, so fewer than the group has members.
pub proof fn law_group_cleared(state: Settlement, group: Seq<int>)
    requires
        is_group(group, 0, state.balances.len() as int),
        group_total(state.balances, group) == 0,
    ensures
        cleared_within(group, state, settle_group(state, group)),
        forall|i: int|
            0 <= i < group.len() ==> settle_group(state, group).balances[#[trigger] group[i]] == 0,
        settle_group(state, group).payments.len() - state.payments.len() <= spare(
            values_at(state.balances, group),
        ),
        group.len() > 0 ==> settle_group(state, group).payments.len() - state.payments.len()
            < group.len(),
{
    let balances = state.balances;
    let count = balances.len() as int;
    let debtors = debtors_of(balances, group);
    let creditors = creditors_of(balances, group);
    let after = settle_group(state, group);
    lemma_group_total(balances, group);
    lemma_debtors_of(balances, group);
    lemma_creditors_of(balances, group);
    lemma_cleared_within_start(group, state);
    lemma_clear_keys_within(group, state, state, debtors, creditors);
    assert(keys_in_range(debtors, count)) by {
        assert forall|i: int| 0 <= i < debtors.len() implies 0 <= #[trigger] debtors[i]
            < count by {
            let j = choose|j: int| 0 <= j < group.len() && group[j] == debtors[i];
        }
    }
    assert(keys_in_range(creditors, count)) by {
        assert forall|i: int| 0 <= i < creditors.len() implies 0 <= #[trigger] creditors[i]
            < count by {
            let j = choose|j: int| 0 <= j < group.len() && group[j] == creditors[i];
        }
    }
    lemma_debtors_or_creditors_cleared(state, debtors, creditors);
    let held = values_at(after.balances, group);
    if forall|j: int| 0 <= j < creditors.len() ==> after.balances[#[trigger] creditors[j]] <= 0 {
        assert forall|i: int| 0 <= i < held.len() implies held[i] <= 0 by {
            if balances[group[i]] > 0 {
                let j = choose|j: int| 0 <= j < creditors.len() && creditors[j] == group[i];
            }
        }
        lemma_sum_of_not_positive(held);
    } else {
        assert forall|i: int| 0 <= i < held.len() implies held[i] >= 0 by {
            if balances[group[i]] < 0 {
                let j = choose|j: int| 0 <= j < debtors.len() && debtors[j] == group[i];
                assert(after.balances[debtors[j]] >= 0);
            }
        }
        lemma_sum_of_not_negative(held);
    }
    assert forall|i: int| 0 <= i < group.len() implies after.balances[#[trigger] group[i]]
        == 0 by {
        assert(held[i] == 0);
    }
    lemma_nonzero_count_bounds(values_at(balances, group));
    lemma_nonzero_count_bounds(held);
}

} // verus!
