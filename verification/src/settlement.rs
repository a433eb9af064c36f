//! What settling a list of balances means.
//!
//! A balance below zero is a debt, one above zero a credit. A payment from
//! a debtor to a creditor takes the same amount off both. Settling first
//! looks for groups of places whose balances cancel out, by rising size, and
//! clears each group among its own members; then it clears all that is left.
//!
//! This module holds the definitions, over sequences of integers, and what
//! follows from them. The functions that carry them out are in `engine`.

use vstd::prelude::*;
use crate::combinations::{combinations, lemma_no_combinations};
use crate::sums::{
    all_zero, lemma_nonzero_count_bounds, lemma_nonzero_count_not_one,
    lemma_nonzero_count_update, lemma_sum_of_not_negative, lemma_sum_of_not_positive, lemma_sum_of_zeros,
    lemma_sum_update, nonzero_count, spare, sum,
};

verus! {

/// A payment of `amount` from the place `debtor` to the place `creditor`.
pub struct Transfer {
    pub debtor: int,
    pub creditor: int,
    pub amount: int,
}

/// The state of a settlement: the balances as they stand, and the payments
/// made so far, oldest first.
pub struct Settlement {
    pub balances: Seq<int>,
    pub payments: Seq<Transfer>,
}

/// The state before any payment.
pub open spec fn start(balances: Seq<int>) -> Settlement {
    Settlement { balances, payments: Seq::empty() }
}

/// Whether `debtor` owes and `creditor` is owed, so that a payment is due.
pub open spec fn payment_due(balances: Seq<int>, debtor: int, creditor: int) -> bool {
    &&& 0 <= debtor < balances.len()
    &&& 0 <= creditor < balances.len()
    &&& balances[debtor] < 0
    &&& balances[creditor] > 0
}

/// The amount that `debtor` pays to `creditor`: all of the debt, or all of
/// the credit, whichever is less.
pub open spec fn payment_amount(balances: Seq<int>, debtor: int, creditor: int) -> int {
    if -balances[debtor] <= balances[creditor] {
        -balances[debtor]
    } else {
        balances[creditor]
    }
}

/// One payment from `debtor` to `creditor`, where one is due.
pub open spec fn pay(state: Settlement, debtor: int, creditor: int) -> Settlement {
    let balances = state.balances;
    if payment_due(balances, debtor, creditor) {
        let amount = payment_amount(balances, debtor, creditor);
        Settlement {
            balances: balances.update(debtor, balances[debtor] + amount).update(
                creditor,
                balances[creditor] - amount,
            ),
            payments: state.payments.push(Transfer { debtor, creditor, amount }),
        }
    } else {
        state
    }
}

/// `debtor` pays the creditors one after the other, in their order.
pub open spec fn clear_debtor(state: Settlement, debtor: int, creditors: Seq<int>) -> Settlement
    decreases creditors.len(),
{
    if creditors.len() == 0 {
        state
    } else {
        pay(clear_debtor(state, debtor, creditors.drop_last()), debtor, creditors.last())
    }
}

/// The debtors pay the creditors: each debtor in turn, each against the
/// creditors in their order.
pub open spec fn clear_keys(state: Settlement, debtors: Seq<int>, creditors: Seq<int>) -> Settlement
    decreases debtors.len(),
{
    if debtors.len() == 0 {
        state
    } else {
        clear_debtor(clear_keys(state, debtors.drop_last(), creditors), debtors.last(), creditors)
    }
}

/// The sum of the balances at the places of `group`.
pub open spec fn group_total(balances: Seq<int>, group: Seq<int>) -> int
    decreases group.len(),
{
    if group.len() == 0 {
        0
    } else {
        group_total(balances, group.drop_last()) + balances[group.last()]
    }
}

/// The places among `keys` whose balance is below zero, in the order of `keys`.
pub open spec fn debtors_of(balances: Seq<int>, keys: Seq<int>) -> Seq<int>
    decreases keys.len(),
{
    if keys.len() == 0 {
        keys
    } else if balances[keys.last()] < 0 {
        debtors_of(balances, keys.drop_last()).push(keys.last())
    } else {
        debtors_of(balances, keys.drop_last())
    }
}

/// The places among `keys` whose balance is above zero, in the order of `keys`.
pub open spec fn creditors_of(balances: Seq<int>, keys: Seq<int>) -> Seq<int>
    decreases keys.len(),
{
    if keys.len() == 0 {
        keys
    } else if balances[keys.last()] > 0 {
        creditors_of(balances, keys.drop_last()).push(keys.last())
    } else {
        creditors_of(balances, keys.drop_last())
    }
}

/// The groups among `groups` whose balances add up to zero, in the order
/// of `groups`.
pub open spec fn zero_sum_groups(balances: Seq<int>, groups: Seq<Seq<int>>) -> Seq<Seq<int>>
    decreases groups.len(),
{
    if groups.len() == 0 {
        groups
    } else if group_total(balances, groups.last()) == 0 {
        zero_sum_groups(balances, groups.drop_last()).push(groups.last())
    } else {
        zero_sum_groups(balances, groups.drop_last())
    }
}

/// Clears `group` among its own members, where its balances still add up
/// to zero; a group that an earlier payment has unbalanced is passed over.
pub open spec fn settle_group(state: Settlement, group: Seq<int>) -> Settlement {
    if group_total(state.balances, group) == 0 {
        clear_keys(
            state,
            debtors_of(state.balances, group),
            creditors_of(state.balances, group),
        )
    } else {
        state
    }
}

/// Clears the groups one after the other, in their order.
pub open spec fn settle_groups(state: Settlement, groups: Seq<Seq<int>>) -> Settlement
    decreases groups.len(),
{
    if groups.len() == 0 {
        state
    } else {
        settle_group(settle_groups(state, groups.drop_last()), groups.last())
    }
}

/// One round: finds the groups of `size` places whose balances add up to
/// zero as the round starts, and clears them in dictionary order.
pub open spec fn settle_size(state: Settlement, size: nat) -> Settlement {
    settle_groups(
        state,
        zero_sum_groups(state.balances, combinations(state.balances.len(), size)),
    )
}

/// The rounds for the sizes from two up to `largest`, smallest first.
pub open spec fn settle_sizes(state: Settlement, largest: nat) -> Settlement
    decreases largest,
{
    if largest < 2 {
        state
    } else {
        settle_size(settle_sizes(state, (largest - 1) as nat), largest)
    }
}

/// The places `0..count`, in order.
pub open spec fn all_keys(count: nat) -> Seq<int> {
    Seq::new(count, |i: int| i)
}

/// Every debtor pays every creditor, in the order of their places.
pub open spec fn clear_all(state: Settlement) -> Settlement {
    clear_keys(
        state,
        debtors_of(state.balances, all_keys(state.balances.len())),
        creditors_of(state.balances, all_keys(state.balances.len())),
    )
}

/// The whole settlement: the rounds up to `largest`, then all that is left.
pub open spec fn settle(balances: Seq<int>, largest: nat) -> Settlement {
    clear_all(settle_sizes(start(balances), largest))
}

/// What `party` has paid out in `payments`.
pub open spec fn paid(payments: Seq<Transfer>, party: int) -> int
    decreases payments.len(),
{
    if payments.len() == 0 {
        0
    } else {
        paid(payments.drop_last(), party) + if payments.last().debtor == party {
            payments.last().amount
        } else {
            0
        }
    }
}

/// What `party` has received in `payments`.
pub open spec fn received(payments: Seq<Transfer>, party: int) -> int
    decreases payments.len(),
{
    if payments.len() == 0 {
        0
    } else {
        received(payments.drop_last(), party) + if payments.last().creditor == party {
            payments.last().amount
        } else {
            0
        }
    }
}

/// Whether `t` is a payment between two different places of `0..count`,
/// of an amount above zero.
pub open spec fn is_payment(t: Transfer, count: int) -> bool {
    &&& 0 <= t.debtor < count
    &&& 0 <= t.creditor < count
    &&& t.debtor != t.creditor
    &&& t.amount > 0
}

/// Whether every balance of `after` lies between zero and what it was in
/// `before`: no payment takes a balance across zero or away from it.
pub open spec fn toward_zero(before: Seq<int>, after: Seq<int>) -> bool {
    &&& after.len() == before.len()
    &&& forall|p: int|
        0 <= p < before.len() && before[p] >= 0 ==> 0 <= #[trigger] after[p] <= before[p]
    &&& forall|p: int|
        0 <= p < before.len() && before[p] <= 0 ==> before[p] <= #[trigger] after[p] <= 0
}

/// Whether `state` can have come from the balances `initial` by payments:
/// every payment is one, every balance is what it was plus what its place
/// paid less what it received, no balance has moved away from zero, the sum
/// of the balances is unchanged, and every payment has brought at least one
/// balance to zero; where the balances add up to zero, the last payment
/// brings two balances to zero.
pub open spec fn settles(initial: Seq<int>, state: Settlement) -> bool {
    &&& toward_zero(initial, state.balances)
    &&& forall|k: int|
        0 <= k < state.payments.len() ==> is_payment(#[trigger] state.payments[k], initial.len() as int)
    &&& forall|p: int|
        0 <= p < initial.len() ==> #[trigger] state.balances[p] == initial[p] + paid(
            state.payments,
            p,
        ) - received(state.payments, p)
    &&& sum(state.balances) == sum(initial)
    &&& state.payments.len() + nonzero_count(state.balances) <= nonzero_count(initial)
    &&& sum(initial) == 0 ==> state.payments.len() + spare(state.balances) <= spare(initial)
}

/// Whether every place of `keys` is one of `0..count`.
pub open spec fn keys_in_range(keys: Seq<int>, count: int) -> bool {
    forall|i: int| 0 <= i < keys.len() ==> 0 <= #[trigger] keys[i] < count
}

/// Before any payment, the state has come from its own balances.
pub proof fn lemma_start_settles(balances: Seq<int>)
    ensures
        settles(balances, start(balances)),
{
}

/// One payment keeps a state among those that have come from `initial`.
pub proof fn lemma_pay_settles(initial: Seq<int>, state: Settlement, debtor: int, creditor: int)
    requires
        settles(initial, state),
    ensures
        settles(initial, pay(state, debtor, creditor)),
        toward_zero(state.balances, pay(state, debtor, creditor).balances),
{
    let balances = state.balances;
    let next = pay(state, debtor, creditor);
    if payment_due(balances, debtor, creditor) {
        let amount = payment_amount(balances, debtor, creditor);
        let t = Transfer { debtor, creditor, amount };
        let first = balances.update(debtor, balances[debtor] + amount);
        lemma_sum_update(balances, debtor, balances[debtor] + amount);
        lemma_sum_update(first, creditor, balances[creditor] - amount);
        lemma_nonzero_count_update(balances, debtor, balances[debtor] + amount);
        lemma_nonzero_count_update(first, creditor, balances[creditor] - amount);
        lemma_nonzero_count_bounds(next.balances);
        if sum(initial) == 0 {
            lemma_nonzero_count_not_one(next.balances);
            if next.balances[debtor] != 0 || next.balances[creditor] != 0 {
                assert(!all_zero(next.balances));
            }
        }
        assert(next.payments.drop_last() =~= state.payments);
        assert(next.payments.last() == t);
        assert forall|k: int| 0 <= k < next.payments.len() implies is_payment(
            #[trigger] next.payments[k],
            initial.len() as int,
        ) by {
            if k < state.payments.len() {
                assert(next.payments[k] == state.payments[k]);
            }
        }
        assert forall|p: int| 0 <= p < initial.len() implies #[trigger] next.balances[p]
            == initial[p] + paid(next.payments, p) - received(next.payments, p) by {
            assert(state.balances[p] == initial[p] + paid(state.payments, p) - received(
                state.payments,
                p,
            ));
        }
        assert(toward_zero(initial, next.balances)) by {
            assert forall|p: int| 0 <= p < initial.len() && initial[p] >= 0 implies 0
                <= #[trigger] next.balances[p] <= initial[p] by {
                assert(0 <= state.balances[p] <= initial[p]);
            }
            assert forall|p: int| 0 <= p < initial.len() && initial[p] <= 0 implies initial[p]
                <= #[trigger] next.balances[p] <= 0 by {
                assert(initial[p] <= state.balances[p] <= 0);
            }
        }
    }
}

/// Moving toward zero twice is moving toward zero.
pub proof fn lemma_toward_zero_twice(first: Seq<int>, second: Seq<int>, third: Seq<int>)
    requires
        toward_zero(first, second),
        toward_zero(second, third),
    ensures
        toward_zero(first, third),
{
    assert forall|p: int| 0 <= p < first.len() && first[p] >= 0 implies 0 <= #[trigger] third[p]
        <= first[p] by {
        assert(0 <= second[p] <= first[p]);
    }
    assert forall|p: int| 0 <= p < first.len() && first[p] <= 0 implies first[p]
        <= #[trigger] third[p] <= 0 by {
        assert(first[p] <= second[p] <= 0);
    }
}

/// A debtor paying a row of creditors keeps a state among those that have
/// come from `initial`.
pub proof fn lemma_clear_debtor_settles(
    initial: Seq<int>,
    state: Settlement,
    debtor: int,
    creditors: Seq<int>,
)
    requires
        settles(initial, state),
    ensures
        settles(initial, clear_debtor(state, debtor, creditors)),
        toward_zero(state.balances, clear_debtor(state, debtor, creditors).balances),
    decreases creditors.len(),
{
    if creditors.len() > 0 {
        let before = clear_debtor(state, debtor, creditors.drop_last());
        lemma_clear_debtor_settles(initial, state, debtor, creditors.drop_last());
        lemma_pay_settles(initial, before, debtor, creditors.last());
        lemma_toward_zero_twice(
            state.balances,
            before.balances,
            clear_debtor(state, debtor, creditors).balances,
        );
    }
}

/// Debtors paying creditors keeps a state among those that have come from
/// `initial`.
pub proof fn lemma_clear_keys_settles(
    initial: Seq<int>,
    state: Settlement,
    debtors: Seq<int>,
    creditors: Seq<int>,
)
    requires
        settles(initial, state),
    ensures
        settles(initial, clear_keys(state, debtors, creditors)),
        toward_zero(state.balances, clear_keys(state, debtors, creditors).balances),
    decreases debtors.len(),
{
    if debtors.len() > 0 {
        let before = clear_keys(state, debtors.drop_last(), creditors);
        lemma_clear_keys_settles(initial, state, debtors.drop_last(), creditors);
        lemma_clear_debtor_settles(initial, before, debtors.last(), creditors);
        lemma_toward_zero_twice(
            state.balances,
            before.balances,
            clear_keys(state, debtors, creditors).balances,
        );
    }
}

/// Clearing groups keeps a state among those that have come from `initial`.
pub proof fn lemma_settle_groups_settles(
    initial: Seq<int>,
    state: Settlement,
    groups: Seq<Seq<int>>,
)
    requires
        settles(initial, state),
    ensures
        settles(initial, settle_groups(state, groups)),
    decreases groups.len(),
{
    if groups.len() > 0 {
        let before = settle_groups(state, groups.drop_last());
        lemma_settle_groups_settles(initial, state, groups.drop_last());
        lemma_clear_keys_settles(
            initial,
            before,
            debtors_of(before.balances, groups.last()),
            creditors_of(before.balances, groups.last()),
        );
    }
}

/// The rounds keep a state among those that have come from `initial`.
pub proof fn lemma_settle_sizes_settles(initial: Seq<int>, state: Settlement, largest: nat)
    requires
        settles(initial, state),
    ensures
        settles(initial, settle_sizes(state, largest)),
    decreases largest,
{
    if largest >= 2 {
        let before = settle_sizes(state, (largest - 1) as nat);
        lemma_settle_sizes_settles(initial, state, (largest - 1) as nat);
        lemma_settle_groups_settles(
            initial,
            before,
            zero_sum_groups(before.balances, combinations(before.balances.len(), largest)),
        );
    }
}

/// Rounds for groups of more places than there are balances change
/// nothing: the rounds up to `largest` are the rounds up to the number of
/// balances.
pub proof fn lemma_settle_sizes_beyond(initial: Seq<int>, state: Settlement, largest: nat)
    requires
        settles(initial, state),
        largest >= initial.len(),
    ensures
        settle_sizes(state, largest) == settle_sizes(state, initial.len()),
    decreases largest,
{
    if largest > initial.len() && largest >= 2 {
        let before = settle_sizes(state, (largest - 1) as nat);
        lemma_settle_sizes_settles(initial, state, (largest - 1) as nat);
        lemma_settle_sizes_beyond(initial, state, (largest - 1) as nat);
        lemma_no_combinations(0, before.balances.len() as int, largest);
    }
}

/// The debtors among `keys` are places of `keys` with a balance below
/// zero, and every such place of `keys` is among them.
pub proof fn lemma_debtors_of(balances: Seq<int>, keys: Seq<int>)
    ensures
        forall|i: int|
            0 <= i < debtors_of(balances, keys).len() ==> keys.contains(
                #[trigger] debtors_of(balances, keys)[i],
            ) && balances[debtors_of(balances, keys)[i]] < 0,
        forall|j: int|
            0 <= j < keys.len() && balances[#[trigger] keys[j]] < 0 ==> debtors_of(
                balances,
                keys,
            ).contains(keys[j]),
    decreases keys.len(),
{
    let found = debtors_of(balances, keys);
    if keys.len() > 0 {
        let front = keys.drop_last();
        let before = debtors_of(balances, front);
        lemma_debtors_of(balances, front);
        assert forall|i: int| 0 <= i < found.len() implies keys.contains(#[trigger] found[i])
            && balances[found[i]] < 0 by {
            if i < before.len() {
                let j = choose|j: int| 0 <= j < front.len() && front[j] == before[i];
            } else {
                assert(found[i] == keys[keys.len() - 1]);
            }
        }
        assert forall|j: int| 0 <= j < keys.len() && balances[#[trigger] keys[j]]
            < 0 implies found.contains(keys[j]) by {
            if j < front.len() {
                let i = choose|i: int| 0 <= i < before.len() && before[i] == front[j];
                assert(found[i] == keys[j]);
            } else {
                assert(found[found.len() - 1] == keys[j]);
            }
        }
    }
}

/// The creditors among `keys` are places of `keys` with a balance above
/// zero, and every such place of `keys` is among them.
pub proof fn lemma_creditors_of(balances: Seq<int>, keys: Seq<int>)
    ensures
        forall|i: int|
            0 <= i < creditors_of(balances, keys).len() ==> keys.contains(
                #[trigger] creditors_of(balances, keys)[i],
            ) && balances[creditors_of(balances, keys)[i]] > 0,
        forall|j: int|
            0 <= j < keys.len() && balances[#[trigger] keys[j]] > 0 ==> creditors_of(
                balances,
                keys,
            ).contains(keys[j]),
    decreases keys.len(),
{
    let found = creditors_of(balances, keys);
    if keys.len() > 0 {
        let front = keys.drop_last();
        let before = creditors_of(balances, front);
        lemma_creditors_of(balances, front);
        assert forall|i: int| 0 <= i < found.len() implies keys.contains(#[trigger] found[i])
            && balances[found[i]] > 0 by {
            if i < before.len() {
                let j = choose|j: int| 0 <= j < front.len() && front[j] == before[i];
            } else {
                assert(found[i] == keys[keys.len() - 1]);
            }
        }
        assert forall|j: int| 0 <= j < keys.len() && balances[#[trigger] keys[j]]
            > 0 implies found.contains(keys[j]) by {
            if j < front.len() {
                let i = choose|i: int| 0 <= i < before.len() && before[i] == front[j];
                assert(found[i] == keys[j]);
            } else {
                assert(found[found.len() - 1] == keys[j]);
            }
        }
    }
}

/// When a debtor has paid a row of creditors, the debtor owes nothing more
/// or none of the creditors is owed anything more.
pub proof fn lemma_debtor_or_creditors_cleared(
    state: Settlement,
    debtor: int,
    creditors: Seq<int>,
)
    requires
        0 <= debtor < state.balances.len(),
        keys_in_range(creditors, state.balances.len() as int),
    ensures
        clear_debtor(state, debtor, creditors).balances.len() == state.balances.len(),
        clear_debtor(state, debtor, creditors).balances[debtor] >= 0 || forall|j: int|
            0 <= j < creditors.len() ==> clear_debtor(state, debtor, creditors).balances[
            #[trigger] creditors[j]] <= 0,
    decreases creditors.len(),
{
    if creditors.len() > 0 {
        let front = creditors.drop_last();
        let before = clear_debtor(state, debtor, front);
        let after = clear_debtor(state, debtor, creditors);
        assert forall|j: int| 0 <= j < front.len() implies 0 <= #[trigger] front[j]
            < state.balances.len() by {
            assert(front[j] == creditors[j]);
        }
        lemma_debtor_or_creditors_cleared(state, debtor, front);
        assert(after == pay(before, debtor, creditors.last()));
        if after.balances[debtor] < 0 {
            assert forall|j: int| 0 <= j < creditors.len() implies after.balances[
            #[trigger] creditors[j]] <= 0 by {
                if j < front.len() {
                    assert(front[j] == creditors[j]);
                }
            }
        }
    }
}

/// When debtors have paid creditors, none of the creditors is owed anything
/// more or none of the debtors owes anything more.
pub proof fn lemma_debtors_or_creditors_cleared(
    state: Settlement,
    debtors: Seq<int>,
    creditors: Seq<int>,
)
    requires
        keys_in_range(debtors, state.balances.len() as int),
        keys_in_range(creditors, state.balances.len() as int),
    ensures
        clear_keys(state, debtors, creditors).balances.len() == state.balances.len(),
        (forall|j: int|
            0 <= j < creditors.len() ==> clear_keys(state, debtors, creditors).balances[
            #[trigger] creditors[j]] <= 0) || (forall|i: int|
            0 <= i < debtors.len() ==> clear_keys(state, debtors, creditors).balances[
            #[trigger] debtors[i]] >= 0),
    decreases debtors.len(),
{
    if debtors.len() > 0 {
        let front = debtors.drop_last();
        let before = clear_keys(state, front, creditors);
        let after = clear_keys(state, debtors, creditors);
        assert forall|i: int| 0 <= i < front.len() implies 0 <= #[trigger] front[i]
            < state.balances.len() by {
            assert(front[i] == debtors[i]);
        }
        lemma_debtors_or_creditors_cleared(state, front, creditors);
        lemma_debtor_or_creditors_cleared(before, debtors.last(), creditors);
        lemma_clear_debtor_moves_toward_zero(before, debtors.last(), creditors);
        if !(forall|j: int|
            0 <= j < creditors.len() ==> after.balances[#[trigger] creditors[j]] <= 0) {
            let j = choose|j: int| 0 <= j < creditors.len() && !(after.balances[creditors[j]] <= 0);
            assert(before.balances[creditors[j]] > 0);
            assert forall|i: int| 0 <= i < debtors.len() implies after.balances[
            #[trigger] debtors[i]] >= 0 by {
                if i < front.len() {
                    assert(front[i] == debtors[i]);
                }
            }
        }
    }
}

/// One payment moves the balances toward zero.
pub proof fn lemma_pay_moves_toward_zero(state: Settlement, debtor: int, creditor: int)
    ensures
        toward_zero(state.balances, pay(state, debtor, creditor).balances),
{
}

/// A debtor paying a row of creditors moves the balances toward zero.
pub proof fn lemma_clear_debtor_moves_toward_zero(
    state: Settlement,
    debtor: int,
    creditors: Seq<int>,
)
    ensures
        toward_zero(state.balances, clear_debtor(state, debtor, creditors).balances),
    decreases creditors.len(),
{
    if creditors.len() > 0 {
        let before = clear_debtor(state, debtor, creditors.drop_last());
        lemma_clear_debtor_moves_toward_zero(state, debtor, creditors.drop_last());
        lemma_pay_moves_toward_zero(before, debtor, creditors.last());
        lemma_toward_zero_twice(
            state.balances,
            before.balances,
            clear_debtor(state, debtor, creditors).balances,
        );
    }
}

/// Balances that add up to zero are all zero once every debtor has paid
/// every creditor.
pub proof fn lemma_clear_all_zeroes(initial: Seq<int>, state: Settlement)
    requires
        settles(initial, state),
        sum(initial) == 0,
    ensures
        settles(initial, clear_all(state)),
        all_zero(clear_all(state).balances),
{
    let balances = state.balances;
    let count = balances.len();
    let keys = all_keys(count);
    let debtors = debtors_of(balances, keys);
    let creditors = creditors_of(balances, keys);
    let after = clear_all(state);
    lemma_debtors_of(balances, keys);
    lemma_creditors_of(balances, keys);
    assert(keys_in_range(debtors, count as int)) by {
        assert forall|i: int| 0 <= i < debtors.len() implies 0 <= #[trigger] debtors[i]
            < count by {
            let j = choose|j: int| 0 <= j < keys.len() && keys[j] == debtors[i];
        }
    }
    assert(keys_in_range(creditors, count as int)) by {
        assert forall|i: int| 0 <= i < creditors.len() implies 0 <= #[trigger] creditors[i]
            < count by {
            let j = choose|j: int| 0 <= j < keys.len() && keys[j] == creditors[i];
        }
    }
    lemma_clear_keys_settles(initial, state, debtors, creditors);
    lemma_debtors_or_creditors_cleared(state, debtors, creditors);
    if forall|j: int| 0 <= j < creditors.len() ==> after.balances[#[trigger] creditors[j]] <= 0 {
        assert forall|p: int| 0 <= p < count implies #[trigger] after.balances[p] <= 0 by {
            if balances[p] > 0 {
                assert(keys[p] == p);
                let j = choose|j: int| 0 <= j < creditors.len() && creditors[j] == p;
                assert(after.balances[creditors[j]] <= 0);
            }
        }
        lemma_sum_of_not_positive(after.balances);
    } else {
        assert forall|p: int| 0 <= p < count implies #[trigger] after.balances[p] >= 0 by {
            if balances[p] < 0 {
                assert(keys[p] == p);
                let i = choose|i: int| 0 <= i < debtors.len() && debtors[i] == p;
                assert(after.balances[debtors[i]] >= 0);
            }
        }
        lemma_sum_of_not_negative(after.balances);
    }
}

/// Settling balances that add up to zero brings every balance to zero, by
/// payments of amounts above zero, between different places, which account
/// for every balance: what a place pays less what it receives is what it
/// owed. There are no more payments than there were balances to clear.
pub proof fn law_settle(balances: Seq<int>, largest: nat)
    requires
        sum(balances) == 0,
    ensures
        settles(balances, settle(balances, largest)),
        all_zero(settle(balances, largest).balances),
        forall|p: int|
            0 <= p < balances.len() ==> paid(settle(balances, largest).payments, p) - received(
                settle(balances, largest).payments,
                p,
            ) == -#[trigger] balances[p],
        settle(balances, largest).payments.len() <= spare(balances),
{
    lemma_start_settles(balances);
    lemma_settle_sizes_settles(balances, start(balances), largest);
    let rounds = settle_sizes(start(balances), largest);
    lemma_clear_all_zeroes(balances, rounds);
    let end = settle(balances, largest);
    lemma_nonzero_count_bounds(end.balances);
    assert forall|p: int| 0 <= p < balances.len() implies paid(end.payments, p) - received(
        end.payments,
        p,
    ) == -#[trigger] balances[p] by {
        assert(end.balances[p] == 0);
    }
}

/// Settling balances that do not add up to zero leaves a balance that is
/// not zero.
pub proof fn law_settle_unbalanced(balances: Seq<int>, largest: nat)
    requires
        sum(balances) != 0,
    ensures
        settles(balances, settle(balances, largest)),
        !all_zero(settle(balances, largest).balances),
{
    lemma_start_settles(balances);
    lemma_settle_sizes_settles(balances, start(balances), largest);
    let rounds = settle_sizes(start(balances), largest);
    lemma_clear_keys_settles(
        balances,
        rounds,
        debtors_of(rounds.balances, all_keys(rounds.balances.len())),
        creditors_of(rounds.balances, all_keys(rounds.balances.len())),
    );
    if all_zero(settle(balances, largest).balances) {
        lemma_sum_of_zeros(settle(balances, largest).balances);
    }
}

} // verus!
