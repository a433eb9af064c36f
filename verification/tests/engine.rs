use debtsolver::engine::{
    clear_all_entries, clear_given_keys, debtor_and_creditor_keys, find_zero_sum_combinations,
    is_settled, settle_balances, settle_combinations, Payment,
};

fn pay(debtor: usize, creditor: usize, amount: i64) -> Payment {
    Payment { debtor, creditor, amount }
}

#[test]
fn find_zero_sum_combinations_lists_groups_in_dictionary_order() {
    let balances: Vec<i64> = vec![-2, 2, -3, 3, 0];
    assert_eq!(find_zero_sum_combinations(&balances, 0), vec![Vec::<usize>::new()]);
    assert_eq!(find_zero_sum_combinations(&balances, 1), vec![vec![4]]);
    assert_eq!(find_zero_sum_combinations(&balances, 2), vec![vec![0, 1], vec![2, 3]]);
    assert_eq!(
        find_zero_sum_combinations(&balances, 3),
        vec![vec![0, 1, 4], vec![2, 3, 4]]
    );
    assert_eq!(find_zero_sum_combinations(&balances, 4), vec![vec![0, 1, 2, 3]]);
    assert_eq!(find_zero_sum_combinations(&balances, 5), vec![vec![0, 1, 2, 3, 4]]);
    assert_eq!(find_zero_sum_combinations(&balances, 6), Vec::<Vec<usize>>::new());
}

#[test]
fn find_zero_sum_combinations_looks_at_every_group() {
    let balances: Vec<i64> = vec![0, 0, 0, 0];
    assert_eq!(
        find_zero_sum_combinations(&balances, 2),
        vec![vec![0, 1], vec![0, 2], vec![0, 3], vec![1, 2], vec![1, 3], vec![2, 3]]
    );
    assert_eq!(
        find_zero_sum_combinations(&balances, 3),
        vec![vec![0, 1, 2], vec![0, 1, 3], vec![0, 2, 3], vec![1, 2, 3]]
    );
    let none: Vec<i64> = vec![];
    assert_eq!(find_zero_sum_combinations(&none, 0), vec![Vec::<usize>::new()]);
    assert_eq!(find_zero_sum_combinations(&none, 1), Vec::<Vec<usize>>::new());
    let wide: Vec<i64> = vec![i64::MAX, i64::MAX, i64::MIN, i64::MIN, 2];
    assert_eq!(find_zero_sum_combinations(&wide, 5), vec![vec![0, 1, 2, 3, 4]]);
    assert_eq!(find_zero_sum_combinations(&wide, 2), Vec::<Vec<usize>>::new());
}

#[test]
fn debtor_and_creditor_keys_split_by_sign() {
    let balances: Vec<i64> = vec![5, -1, 0, -4, 7, 0, -7];
    assert_eq!(debtor_and_creditor_keys(&balances), (vec![1, 3, 6], vec![0, 4]));
    assert_eq!(debtor_and_creditor_keys(&Vec::new()), (vec![], vec![]));
}

#[test]
fn clear_given_keys_pays_the_lesser_of_debt_and_credit() {
    let mut balances: Vec<i64> = vec![-10, 4, 3, 3];
    let payments = clear_given_keys(&mut balances, &vec![0], &vec![1, 2, 3]);
    assert_eq!(payments, vec![pay(0, 1, 4), pay(0, 2, 3), pay(0, 3, 3)]);
    assert_eq!(balances, vec![0, 0, 0, 0]);

    let mut balances: Vec<i64> = vec![-1, -2, 10];
    let payments = clear_given_keys(&mut balances, &vec![0, 1], &vec![2]);
    assert_eq!(payments, vec![pay(0, 2, 1), pay(1, 2, 2)]);
    assert_eq!(balances, vec![0, 0, 7]);

    let mut balances: Vec<i64> = vec![-5, -5, 3, 4];
    let payments = clear_given_keys(&mut balances, &vec![1, 0], &vec![3, 2]);
    assert_eq!(payments, vec![pay(1, 3, 4), pay(1, 2, 1), pay(0, 2, 2)]);
    assert_eq!(balances, vec![-3, 0, 0, 0]);
}

#[test]
fn clear_given_keys_passes_over_keys_that_have_nothing_due() {
    let mut balances: Vec<i64> = vec![-5, 5, 0, 2];
    let payments = clear_given_keys(&mut balances, &vec![1, 2, 0, 0], &vec![0, 2, 1, 1]);
    assert_eq!(payments, vec![pay(0, 1, 5)]);
    assert_eq!(balances, vec![0, 0, 0, 2]);
    let mut balances: Vec<i64> = vec![-5, 5];
    assert_eq!(clear_given_keys(&mut balances, &vec![], &vec![1]), vec![]);
    assert_eq!(clear_given_keys(&mut balances, &vec![0], &vec![]), vec![]);
    assert_eq!(balances, vec![-5, 5]);
}

#[test]
fn clear_given_keys_copes_with_the_widest_balances() {
    let mut balances: Vec<i64> = vec![i64::MIN, i64::MAX, 1];
    let payments = clear_given_keys(&mut balances, &vec![0], &vec![1, 2]);
    assert_eq!(payments, vec![pay(0, 1, i64::MAX), pay(0, 2, 1)]);
    assert_eq!(balances, vec![0, 0, 0]);
}

#[test]
fn settle_combinations_clears_groups_that_cancel_out() {
    let mut balances: Vec<i64> = vec![-2, 2, -3, 15, -5, -7];
    assert_eq!(settle_combinations(&mut balances, 2), vec![pay(0, 1, 2)]);
    assert_eq!(balances, vec![0, 0, -3, 15, -5, -7]);
    assert_eq!(settle_combinations(&mut balances, 3), vec![]);
    assert_eq!(
        settle_combinations(&mut balances, 4),
        vec![pay(2, 3, 3), pay(4, 3, 5), pay(5, 3, 7)]
    );
    assert!(is_settled(&balances));
}

#[test]
fn settle_combinations_passes_over_a_group_that_lost_its_balance() {
    // The groups (0, 1) and (1, 2) both cancel out as the round starts.
    let mut balances: Vec<i64> = vec![-2, 2, -2, 2];
    assert_eq!(settle_combinations(&mut balances, 2), vec![pay(0, 1, 2), pay(2, 3, 2)]);
    assert_eq!(balances, vec![0, 0, 0, 0]);
    // (0, 1, 2) is cleared first; (0, 4, 5) has then lost a member and is left alone.
    let mut balances: Vec<i64> = vec![-1, -2, 3, -1, -2, 3];
    assert_eq!(
        settle_combinations(&mut balances, 3),
        vec![pay(0, 2, 1), pay(1, 2, 2), pay(3, 5, 1), pay(4, 5, 2)]
    );
    assert_eq!(balances, vec![0, 0, 0, 0, 0, 0]);
}

#[test]
fn clear_all_entries_clears_balanced_entries() {
    let mut balances: Vec<i64> = vec![300, -500, 200, 0];
    assert_eq!(clear_all_entries(&mut balances), Some(vec![pay(1, 0, 300), pay(1, 2, 200)]));
    assert_eq!(balances, vec![0, 0, 0, 0]);
    let mut none: Vec<i64> = vec![];
    assert_eq!(clear_all_entries(&mut none), Some(vec![]));
}

#[test]
fn settle_balances_prefers_small_groups() {
    let mut balances: Vec<i64> = vec![-300, 700, -400, -1000, 2700, -1700];
    let payments = settle_balances(&mut balances, 5).unwrap();
    assert_eq!(
        payments,
        vec![pay(0, 1, 300), pay(2, 1, 400), pay(3, 4, 1000), pay(5, 4, 1700)]
    );
    assert!(is_settled(&balances));
    let mut balances: Vec<i64> = vec![-300, 700, -400, -1000, 2700, -1700];
    let payments = settle_balances(&mut balances, 2).unwrap();
    assert_eq!(
        payments,
        vec![pay(0, 1, 300), pay(2, 1, 400), pay(3, 4, 1000), pay(5, 4, 1700)]
    );
    let mut balances: Vec<i64> = vec![-400, 700, -300, 1000, -1000];
    let payments = settle_balances(&mut balances, 0).unwrap();
    assert_eq!(payments, vec![pay(0, 1, 400), pay(2, 1, 300), pay(4, 3, 1000)]);
    let mut balances: Vec<i64> = vec![-400, 1000, -300, 700, -1000];
    assert_eq!(
        settle_balances(&mut balances, 0).unwrap(),
        vec![pay(0, 1, 400), pay(2, 1, 300), pay(4, 1, 300), pay(4, 3, 700)]
    );
    let mut balances: Vec<i64> = vec![-400, 1000, -300, 700, -1000];
    assert_eq!(
        settle_balances(&mut balances, 2).unwrap(),
        vec![pay(4, 1, 1000), pay(0, 3, 400), pay(2, 3, 300)]
    );
}

#[test]
fn settle_balances_never_needs_more_payments_than_open_balances() {
    let cases: Vec<Vec<i64>> = vec![
        vec![],
        vec![0, 0],
        vec![-1, 1],
        vec![-6, 1, 2, 3],
        vec![5, -1, -1, -1, -1, -1],
        vec![-7, 3, 3, 1, -5, 5, 0],
        vec![10, -3, -3, -4, 8, -8, 2, -2, 0, 0],
    ];
    for case in cases {
        for group_size in 0..(case.len() + 2) {
            let mut balances = case.clone();
            let open = case.iter().filter(|b| **b != 0).count();
            let payments = settle_balances(&mut balances, group_size).unwrap();
            assert!(is_settled(&balances));
            assert!(payments.len() <= open);
            if open > 0 {
                assert!(payments.len() < open);
            }
            let mut net: Vec<i64> = vec![0; case.len()];
            for payment in &payments {
                assert!(payment.amount > 0);
                assert!(payment.debtor != payment.creditor);
                net[payment.debtor] += payment.amount;
                net[payment.creditor] -= payment.amount;
            }
            for (i, owed) in case.iter().enumerate() {
                assert_eq!(net[i], -owed);
            }
        }
    }
}
