//! The settlement engine: carries out, on a vector of balances, what
//! `settlement` defines.
//!
//! A balance is a whole number of hundredths. A place is an index into the
//! vector of balances.

use vstd::prelude::*;
use crate::combinations::{
    combinations, groups_left, groups_of, is_group, lemma_combinations_are_groups, list_groups,
    lemma_no_combinations, next_group, places,
};
use crate::settlement::{
    all_keys, clear_all, clear_debtor, clear_keys, creditors_of, debtors_of, group_total,
    law_settle, law_settle_unbalanced, lemma_clear_all_zeroes, lemma_clear_keys_settles,
    lemma_settle_groups_settles, lemma_settle_sizes_beyond, lemma_start_settles, pay, settle,
    settle_groups, settle_size, settle_sizes, settles, start, zero_sum_groups, Settlement,
    Transfer,
};
use crate::sums::{all_zero, lemma_sum_of_zeros, sum};

verus! {

/// A payment of `amount` hundredths from the place `debtor` to the place
/// `creditor`.
#[derive(Clone, Copy, Debug, PartialEq, Eq)]
pub struct Payment {
    pub debtor: usize,
    pub creditor: usize,
    pub amount: i64,
}

impl View for Payment {
    type V = Transfer;

    open spec fn view(&self) -> Transfer {
        Transfer {
            debtor: self.debtor as int,
            creditor: self.creditor as int,
            amount: self.amount as int,
        }
    }
}

/// The balances that `values` holds, as integers.
pub open spec fn amounts(values: Seq<i64>) -> Seq<int> {
    Seq::new(values.len(), |i: int| values[i] as int)
}

/// The payments that `payments` holds.
pub open spec fn transfers(payments: Seq<Payment>) -> Seq<Transfer> {
    Seq::new(payments.len(), |i: int| payments[i]@)
}

/// The state that balances and payments stand for.
pub open spec fn state_of(balances: Seq<i64>, payments: Seq<Payment>) -> Settlement {
    Settlement { balances: amounts(balances), payments: transfers(payments) }
}

/// Whether every place of `keys` is a place of `balances`.
pub open spec fn valid_keys(keys: Seq<usize>, balances: Seq<i64>) -> bool {
    forall|i: int| 0 <= i < keys.len() ==> #[trigger] keys[i] < balances.len()
}

/// One payment from `debtor` to `creditor`, where one is due.
fn pay_into(
    balances: &mut Vec<i64>,
    payments: &mut Vec<Payment>,
    debtor: usize,
    creditor: usize,
)
    requires
        debtor < old(balances)@.len(),
        creditor < old(balances)@.len(),
    ensures
        final(balances)@.len() == old(balances)@.len(),
        state_of(final(balances)@, final(payments)@) == pay(
            state_of(old(balances)@, old(payments)@),
            debtor as int,
            creditor as int,
        ),
{
    let debt = balances[debtor];
    let credit = balances[creditor];
    let ghost before = state_of(balances@, payments@);
    if debt < 0 && credit > 0 {
        let amount: i64 = if debt + credit >= 0 {
            -debt
        } else {
            credit
        };
        balances.set(debtor, debt + amount);
        balances.set(creditor, credit - amount);
        payments.push(Payment { debtor, creditor, amount });
        proof {
            let after = pay(before, debtor as int, creditor as int);
            assert(amounts(balances@) =~= after.balances);
            assert(transfers(payments@) =~= after.payments);
        }
    }
}

/// The debtors pay the creditors, and the payments are added to `payments`.
fn clear_into(
    balances: &mut Vec<i64>,
    payments: &mut Vec<Payment>,
    debtors: &Vec<usize>,
    creditors: &Vec<usize>,
)
    requires
        valid_keys(debtors@, old(balances)@),
        valid_keys(creditors@, old(balances)@),
    ensures
        final(balances)@.len() == old(balances)@.len(),
        state_of(final(balances)@, final(payments)@) == clear_keys(
            state_of(old(balances)@, old(payments)@),
            places(debtors@),
            places(creditors@),
        ),
{
    let ghost initial = state_of(balances@, payments@);
    let ghost count = balances@.len();
    let mut i: usize = 0;
    while i < debtors.len()
        invariant
            i <= debtors@.len(),
            balances@.len() == count,
            forall|k: int| 0 <= k < debtors@.len() ==> #[trigger] debtors@[k] < count,
            forall|k: int| 0 <= k < creditors@.len() ==> #[trigger] creditors@[k] < count,
            state_of(balances@, payments@) == clear_keys(
                initial,
                places(debtors@).take(i as int),
                places(creditors@),
            ),
        decreases debtors@.len() - i,
    {
        let debtor = debtors[i];
        let ghost before = state_of(balances@, payments@);
        let mut j: usize = 0;
        while j < creditors.len()
            invariant
                j <= creditors@.len(),
                balances@.len() == count,
                debtor < count,
                forall|k: int| 0 <= k < creditors@.len() ==> #[trigger] creditors@[k] < count,
                state_of(balances@, payments@) == clear_debtor(
                    before,
                    debtor as int,
                    places(creditors@).take(j as int),
                ),
            decreases creditors@.len() - j,
        {
            pay_into(balances, payments, debtor, creditors[j]);
            proof {
                let row = places(creditors@);
                assert(row.take(j + 1).drop_last() =~= row.take(j as int));
            }
            j += 1;
        }
        proof {
            let row = places(creditors@);
            assert(row.take(creditors@.len() as int) =~= row);
            let column = places(debtors@);
            assert(column.take(i + 1).drop_last() =~= column.take(i as int));
        }
        i += 1;
    }
    proof {
        assert(places(debtors@).take(debtors@.len() as int) =~= places(debtors@));
    }
}

/// The debtors pay the creditors: each debtor in turn pays the creditors in
/// their order, all of its debt or all of the credit, whichever is less,
/// until it owes nothing or no creditor is owed anything. The balances are
/// brought up to date, and the payments are returned, oldest first.
pub fn clear_given_keys(
    balances: &mut Vec<i64>,
    debtors: &Vec<usize>,
    creditors: &Vec<usize>,
) -> (payments: Vec<Payment>)
    requires
        valid_keys(debtors@, old(balances)@),
        valid_keys(creditors@, old(balances)@),
    ensures
        final(balances)@.len() == old(balances)@.len(),
        state_of(final(balances)@, payments@) == clear_keys(
            start(amounts(old(balances)@)),
            places(debtors@),
            places(creditors@),
        ),
        settles(amounts(old(balances)@), state_of(final(balances)@, payments@)),
{
    let mut payments: Vec<Payment> = Vec::new();
    assert(transfers(payments@) =~= Seq::<Transfer>::empty());
    clear_into(balances, &mut payments, debtors, creditors);
    proof {
        lemma_start_settles(amounts(old(balances)@));
        lemma_clear_keys_settles(
            amounts(old(balances)@),
            start(amounts(old(balances)@)),
            places(debtors@),
            places(creditors@),
        );
    }
    payments
}

/// The places among `keys` that owe, and those that are owed, each in the
/// order of `keys`.
fn split_keys(balances: &Vec<i64>, keys: &Vec<usize>) -> (split: (Vec<usize>, Vec<usize>))
    requires
        valid_keys(keys@, balances@),
    ensures
        places(split.0@) == debtors_of(amounts(balances@), places(keys@)),
        places(split.1@) == creditors_of(amounts(balances@), places(keys@)),
        valid_keys(split.0@, balances@),
        valid_keys(split.1@, balances@),
{
    let mut debtors: Vec<usize> = Vec::new();
    let mut creditors: Vec<usize> = Vec::new();
    let ghost row = places(keys@);
    let ghost values = amounts(balances@);
    let mut i: usize = 0;
    while i < keys.len()
        invariant
            i <= keys@.len(),
            row == places(keys@),
            values == amounts(balances@),
            valid_keys(keys@, balances@),
            places(debtors@) == debtors_of(values, row.take(i as int)),
            places(creditors@) == creditors_of(values, row.take(i as int)),
            valid_keys(debtors@, balances@),
            valid_keys(creditors@, balances@),
        decreases keys@.len() - i,
    {
        let key = keys[i];
        let value = balances[key];
        proof {
            assert(row.take(i + 1).drop_last() =~= row.take(i as int));
        }
        if value > 0 {
            creditors.push(key);
        } else if value < 0 {
            let ghost previous = places(debtors@);
            debtors.push(key);
            assert(places(debtors@) =~= previous.push(key as int));
        }
        i += 1;
    }
    proof {
        assert(row.take(keys@.len() as int) =~= row);
    }
    (debtors, creditors)
}

/// The places that owe, and the places that are owed, each in rising order.
pub fn debtor_and_creditor_keys(balances: &Vec<i64>) -> (keys: (Vec<usize>, Vec<usize>))
    ensures
        places(keys.0@) == debtors_of(amounts(balances@), all_keys(balances@.len())),
        places(keys.1@) == creditors_of(amounts(balances@), all_keys(balances@.len())),
        valid_keys(keys.0@, balances@),
        valid_keys(keys.1@, balances@),
{
    let mut debtors: Vec<usize> = Vec::new();
    let mut creditors: Vec<usize> = Vec::new();
    let ghost row = all_keys(balances@.len());
    let ghost values = amounts(balances@);
    let mut i: usize = 0;
    while i < balances.len()
        invariant
            i <= balances@.len(),
            row == all_keys(balances@.len()),
            values == amounts(balances@),
            places(debtors@) == debtors_of(values, row.take(i as int)),
            places(creditors@) == creditors_of(values, row.take(i as int)),
            valid_keys(debtors@, balances@),
            valid_keys(creditors@, balances@),
        decreases balances@.len() - i,
    {
        let value = balances[i];
        proof {
            assert(row.take(i + 1).drop_last() =~= row.take(i as int));
        }
        if value > 0 {
            creditors.push(i);
        } else if value < 0 {
            let ghost previous = places(debtors@);
            debtors.push(i);
            assert(places(debtors@) =~= previous.push(i as int));
        }
        i += 1;
    }
    proof {
        assert(row.take(balances@.len() as int) =~= row);
    }
    (debtors, creditors)
}

/// The sum of the balances at the places of a group lies within the
/// number of places times the range of a balance.
proof fn lemma_group_total_bounds(values: Seq<i64>, group: Seq<usize>)
    requires
        valid_keys(group, values),
    ensures
        -0x8000_0000_0000_0000 * group.len() <= group_total(amounts(values), places(group))
            <= 0x8000_0000_0000_0000 * group.len(),
    decreases group.len(),
{
    if group.len() > 0 {
        let front = group.drop_last();
        assert(valid_keys(front, values)) by {
            assert forall|i: int| 0 <= i < front.len() implies #[trigger] front[i]
                < values.len() by {
                assert(front[i] == group[i]);
            }
        }
        lemma_group_total_bounds(values, front);
        assert(places(group).drop_last() =~= places(front));
        assert(0x8000_0000_0000_0000 * group.len() == 0x8000_0000_0000_0000 * front.len()
            + 0x8000_0000_0000_0000) by (nonlinear_arith)
            requires
                group.len() == front.len() + 1,
        ;
    }
}

/// Whether the balances at the places of `group` add up to zero.
fn sums_to_zero(balances: &Vec<i64>, group: &Vec<usize>) -> (zero: bool)
    requires
        valid_keys(group@, balances@),
    ensures
        zero == (group_total(amounts(balances@), places(group@)) == 0),
{
    let ghost values = amounts(balances@);
    let ghost row = places(group@);
    let mut total: i128 = 0;
    let mut i: usize = 0;
    while i < group.len()
        invariant
            i <= group@.len(),
            values == amounts(balances@),
            row == places(group@),
            valid_keys(group@, balances@),
            total == group_total(values, row.take(i as int)),
        decreases group@.len() - i,
    {
        let key = group[i];
        proof {
            assert(row.take(i + 1).drop_last() =~= row.take(i as int));
            let head = group@.take(i as int);
            lemma_group_total_bounds(balances@, head);
            assert(places(head) =~= row.take(i as int));
            assert(0x8000_0000_0000_0000 * head.len() <= 0x8000_0000_0000_0000
                * 0xffff_ffff_ffff_fffe) by (nonlinear_arith)
                requires
                    head.len() <= 0xffff_ffff_ffff_fffe,
            ;
        }
        total = total + balances[key] as i128;
        i += 1;
    }
    proof {
        assert(row.take(group@.len() as int) =~= row);
    }
    total == 0
}

/// The groups of `combo_size` places whose balances add up to zero, in
/// dictionary order.
pub fn find_zero_sum_combinations(balances: &Vec<i64>, combo_size: usize) -> (groups: Vec<
    Vec<usize>,
>)
    ensures
        groups_of(groups@) == zero_sum_groups(
            amounts(balances@),
            combinations(balances@.len(), combo_size as nat),
        ),
        forall|i: int| 0 <= i < groups@.len() ==> valid_keys(#[trigger] groups@[i]@, balances@),
{
    if combo_size > balances.len() {
        let groups: Vec<Vec<usize>> = Vec::new();
        proof {
            lemma_no_combinations(0, balances@.len() as int, combo_size as nat);
        }
        return groups;
    }
    let mut listing = list_groups(balances.len(), combo_size);
    let ghost values = amounts(balances@);
    let ghost listed = combinations(balances@.len(), combo_size as nat);
    let ghost mut seen: int = 0;
    proof {
        lemma_combinations_are_groups(0, balances@.len() as int, combo_size as nat);
    }
    let mut groups: Vec<Vec<usize>> = Vec::new();
    let mut next = next_group(&mut listing);
    while next.is_some()
        invariant
            0 <= seen <= listed.len(),
            values == amounts(balances@),
            listed == combinations(balances@.len(), combo_size as nat),
            forall|k: int|
                0 <= k < listed.len() ==> is_group(#[trigger] listed[k], 0, balances@.len() as int),
            next is Some ==> seen < listed.len() && places(next->0@) == listed[seen]
                && groups_left(listing) == listed.skip(seen + 1),
            next is None ==> seen == listed.len(),
            groups_of(groups@) == zero_sum_groups(values, listed.take(seen)),
            forall|k: int| 0 <= k < groups@.len() ==> valid_keys(#[trigger] groups@[k]@, balances@),
        decreases listed.len() - seen,
    {
        let group = next.unwrap();
        proof {
            assert(listed.take(seen + 1).drop_last() =~= listed.take(seen));
            assert forall|k: int| 0 <= k < group@.len() implies #[trigger] group@[k]
                < balances@.len() by {
                assert(places(group@)[k] == group@[k]);
            }
        }
        if sums_to_zero(balances, &group) {
            let ghost previous = groups_of(groups@);
            groups.push(group);
            assert(groups_of(groups@) =~= previous.push(listed[seen]));
        }
        next = next_group(&mut listing);
        proof {
            if listed.skip(seen + 1).len() > 0 {
                assert(listed.skip(seen + 1).first() == listed[seen + 1]);
            }
            seen = seen + 1;
        }
    }
    proof {
        assert(listed.take(listed.len() as int) =~= listed);
    }
    groups
}

/// One round, with the payments added to `payments`.
fn settle_combinations_into(
    balances: &mut Vec<i64>,
    payments: &mut Vec<Payment>,
    combo_size: usize,
)
    ensures
        final(balances)@.len() == old(balances)@.len(),
        state_of(final(balances)@, final(payments)@) == settle_size(
            state_of(old(balances)@, old(payments)@),
            combo_size as nat,
        ),
{
    let ghost initial = state_of(balances@, payments@);
    let ghost count = balances@.len();
    let groups = find_zero_sum_combinations(balances, combo_size);
    let ghost found = groups_of(groups@);
    let mut i: usize = 0;
    while i < groups.len()
        invariant
            i <= groups@.len(),
            balances@.len() == count,
            found == groups_of(groups@),
            forall|k: int|
                0 <= k < groups@.len() ==> forall|m: int|
                    0 <= m < (#[trigger] groups@[k])@.len() ==> groups@[k]@[m] < count,
            state_of(balances@, payments@) == settle_groups(initial, found.take(i as int)),
        decreases groups@.len() - i,
    {
        let group = &groups[i];
        proof {
            assert(found.take(i + 1).drop_last() =~= found.take(i as int));
            assert(valid_keys(group@, balances@)) by {
                assert forall|m: int| 0 <= m < group@.len() implies #[trigger] group@[m]
                    < balances@.len() by {
                    assert(groups@[i as int]@[m] < count);
                }
            }
        }
        if sums_to_zero(balances, group) {
            let (debtors, creditors) = split_keys(balances, group);
            clear_into(balances, payments, &debtors, &creditors);
        }
        i += 1;
    }
    proof {
        assert(found.take(groups@.len() as int) =~= found);
    }
}

/// One round of settling: finds the groups of `combo_size` places whose
/// balances add up to zero, and clears each among its own members, in
/// dictionary order. A group that has lost its balance to an earlier group
/// of the round is passed over. The balances are brought up to date, and
/// the payments are returned, oldest first.
pub fn settle_combinations(balances: &mut Vec<i64>, combo_size: usize) -> (payments: Vec<Payment>)
    ensures
        final(balances)@.len() == old(balances)@.len(),
        state_of(final(balances)@, payments@) == settle_size(
            start(amounts(old(balances)@)),
            combo_size as nat,
        ),
        settles(amounts(old(balances)@), state_of(final(balances)@, payments@)),
{
    let mut payments: Vec<Payment> = Vec::new();
    assert(transfers(payments@) =~= Seq::<Transfer>::empty());
    settle_combinations_into(balances, &mut payments, combo_size);
    proof {
        let begin = start(amounts(old(balances)@));
        lemma_start_settles(amounts(old(balances)@));
        lemma_settle_groups_settles(
            amounts(old(balances)@),
            begin,
            zero_sum_groups(begin.balances, combinations(begin.balances.len(), combo_size as nat)),
        );
    }
    payments
}

/// Whether every balance is zero.
pub fn is_settled(balances: &Vec<i64>) -> (settled: bool)
    ensures
        settled == all_zero(amounts(balances@)),
{
    let mut i: usize = 0;
    while i < balances.len()
        invariant
            i <= balances@.len(),
            forall|k: int| 0 <= k < i ==> balances@[k] == 0,
        decreases balances@.len() - i,
    {
        if balances[i] != 0 {
            assert(amounts(balances@)[i as int] != 0);
            return false;
        }
        i += 1;
    }
    true
}

/// Every debtor pays every creditor, with the payments added to `payments`.
fn clear_all_into(balances: &mut Vec<i64>, payments: &mut Vec<Payment>)
    ensures
        final(balances)@.len() == old(balances)@.len(),
        state_of(final(balances)@, final(payments)@) == clear_all(
            state_of(old(balances)@, old(payments)@),
        ),
{
    let (debtors, creditors) = debtor_and_creditor_keys(balances);
    clear_into(balances, payments, &debtors, &creditors);
}

/// Clears all that is left: every place that owes pays the places that are
/// owed, in rising order of the places. Returns the payments, oldest first,
/// where the balances add up to zero, so that every balance is now zero;
/// `None` where they do not, so that some balance is left.
pub fn clear_all_entries(balances: &mut Vec<i64>) -> (payments: Option<Vec<Payment>>)
    ensures
        final(balances)@.len() == old(balances)@.len(),
        amounts(final(balances)@) == clear_all(start(amounts(old(balances)@))).balances,
        payments is Some <==> sum(amounts(old(balances)@)) == 0,
        payments is Some <==> all_zero(amounts(final(balances)@)),
        payments matches Some(made) ==> transfers(made@) == clear_all(
            start(amounts(old(balances)@)),
        ).payments,
        payments matches Some(made) ==> settles(
            amounts(old(balances)@),
            state_of(final(balances)@, made@),
        ),
{
    let mut made: Vec<Payment> = Vec::new();
    assert(transfers(made@) =~= Seq::<Transfer>::empty());
    clear_all_into(balances, &mut made);
    proof {
        let initial = amounts(old(balances)@);
        lemma_start_settles(initial);
        if sum(initial) == 0 {
            lemma_clear_all_zeroes(initial, start(initial));
        } else {
            lemma_clear_keys_settles(
                initial,
                start(initial),
                debtors_of(initial, all_keys(initial.len())),
                creditors_of(initial, all_keys(initial.len())),
            );
            if all_zero(amounts(balances@)) {
                lemma_sum_of_zeros(amounts(balances@));
            }
        }
    }
    if is_settled(balances) {
        Some(made)
    } else {
        None
    }
}

/// Settles the balances: one round for each group size from two up to
/// `group_size`, then all that is left. Returns the payments, oldest first,
/// where the balances add up to zero, so that every balance is now zero;
/// `None` where they do not, so that some balance is left.
pub fn settle_balances(balances: &mut Vec<i64>, group_size: usize) -> (payments: Option<
    Vec<Payment>,
>)
    ensures
        final(balances)@.len() == old(balances)@.len(),
        amounts(final(balances)@) == settle(amounts(old(balances)@), group_size as nat).balances,
        payments is Some <==> sum(amounts(old(balances)@)) == 0,
        payments is Some <==> all_zero(amounts(final(balances)@)),
        payments matches Some(made) ==> transfers(made@) == settle(
            amounts(old(balances)@),
            group_size as nat,
        ).payments,
        payments matches Some(made) ==> settles(
            amounts(old(balances)@),
            state_of(final(balances)@, made@),
        ),
{
    let ghost initial = amounts(balances@);
    let mut made: Vec<Payment> = Vec::new();
    assert(transfers(made@) =~= Seq::<Transfer>::empty());
    let largest: usize = if group_size < balances.len() {
        group_size
    } else {
        balances.len()
    };
    let mut size: usize = 1;
    while size < largest
        invariant
            1 <= size,
            size == 1 || size <= largest,
            balances@.len() == initial.len(),
            state_of(balances@, made@) == settle_sizes(start(initial), size as nat),
        decreases largest - size,
    {
        size += 1;
        settle_combinations_into(balances, &mut made, size);
    }
    proof {
        if largest < 2 {
            assert(size == 1);
        }
        lemma_start_settles(initial);
        if group_size > largest {
            lemma_settle_sizes_beyond(
                initial,
                start(initial),
                group_size as nat,
            );
        }
    }
    clear_all_into(balances, &mut made);
    proof {
        if sum(initial) == 0 {
            law_settle(initial, group_size as nat);
        } else {
            law_settle_unbalanced(initial, group_size as nat);
        }
    }
    if is_settled(balances) {
        Some(made)
    } else {
        None
    }
}

} // verus!
