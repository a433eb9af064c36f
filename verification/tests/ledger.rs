use debtsolver::engine::{clear_all_entries, settle_balances};
use debtsolver::{Ledger, Money, MultiPartyTransaction, Transaction};

fn money(value: i32, code: &str) -> Money {
    Money::from_string(value.to_string(), code.to_string()).unwrap()
}

fn transaction(debtor: &str, creditor: &str, amount: (i32, &str)) -> Transaction {
    Transaction::from_tuple(debtor.to_string(), creditor.to_string(), amount).unwrap()
}

fn names(list: &[&str]) -> Vec<String> {
    list.iter().map(|name| name.to_string()).collect()
}

fn balance(ledger: &Ledger, name: &str) -> i64 {
    ledger
        .to_vector()
        .iter()
        .find(|entry| entry.0 == name)
        .map(|entry| entry.1.amount())
        .unwrap_or(0)
}

// The settlement should always choose credits and debits that are equal over any other type.
// This allows two entries in the ledger to be removed in exchange for a single payment.
// For example, if A = -10 and B = +10, they should always first over any other possibility
#[test]
fn ledger_settle_matches_equal_debts_and_credits() {
    let mut ledger = Ledger::new();

    let expected_results = vec![
        transaction("A", "B", (2, "USD")),
        transaction("C", "F", (3, "USD")),
        transaction("D", "F", (5, "USD")),
        transaction("E", "F", (7, "USD")),
    ];

    for _ in 0..5 {
        ledger.add_transaction(transaction("A", "B", (2, "USD")));
        ledger.add_transaction(transaction("C", "F", (3, "USD")));
        ledger.add_transaction(transaction("D", "F", (5, "USD")));
        ledger.add_transaction(transaction("E", "F", (7, "USD")));
        let mut payments = ledger.settle();
        payments.sort();
        assert_eq!(payments, expected_results);
    }
}

// Next, the settlement should always choose 3 credits and debits that are zero sum over any other.
// This allows three entries in the ledger to be removed in exchange for two payments.
// For example, if A = -10,  B = +5, C= +5.
#[test]
fn ledger_settle_with_size_3_matches_groups_of_3_credits_and_debits() {
    let mut ledger = Ledger::new();

    let expected_results = vec![
        transaction("A", "D", (3, "USD")),
        transaction("C", "D", (4, "USD")),
        transaction("E", "B", (10, "USD")),
        transaction("F", "B", (17, "USD")),
        transaction("J", "K", (20, "USD")),
        transaction("U", "K", (21, "USD")),
    ];

    for _ in 0..5 {
        ledger.add_transaction(transaction("A", "D", (3, "USD")));
        ledger.add_transaction(transaction("C", "D", (4, "USD")));
        ledger.add_transaction(transaction("E", "B", (10, "USD")));
        ledger.add_transaction(transaction("F", "B", (17, "USD")));
        ledger.add_transaction(transaction("J", "K", (20, "USD")));
        ledger.add_transaction(transaction("U", "K", (21, "USD")));

        let mut payments = ledger.settle();
        payments.sort();
        assert_eq!(payments, expected_results);
    }
}

#[test]
#[should_panic]
fn ledger_settle_panics_if_unbalanced() {
    let mut balances: Vec<i64> = vec![money(10, "USD").amount()];
    settle_balances(&mut balances, 0).unwrap();
}

//
// Multi-Party Transaction Tests
//
#[test]
fn mptx_can_handle_debtor_rounding() {
    let transaction = MultiPartyTransaction::new(
        vec!["A".to_string(), "B".to_string(), "C".to_string()],
        vec!["D".to_string()],
        money(10, "USD"),
    )
    .unwrap();
    let mut ledger = Ledger::new();
    ledger.add_multi_party_transaction(transaction);
    let remaining = ledger
        .to_vector()
        .into_iter()
        .fold(money(0, "USD"), |acc, x| acc + x.1);
    assert_eq!(remaining, money(0, "USD"));
}

#[test]
fn mptx_can_handle_creditor_rounding() {
    let transaction = MultiPartyTransaction::new(
        vec!["A".to_string()],
        vec!["B".to_string(), "C".to_string(), "D".to_string()],
        money(10, "USD"),
    )
    .unwrap();
    let mut ledger = Ledger::new();
    ledger.add_multi_party_transaction(transaction);
    let ledger_balance = ledger
        .to_vector()
        .into_iter()
        .fold(money(0, "USD"), |acc, x| acc + x.1);
    assert_eq!(ledger_balance, money(0, "USD"));
}

//
// Transaction Tests
//
#[test]
fn tx_can_create_positive_transaction() {
    match Transaction::new("A".to_string(), "B".to_string(), money(1, "USD")) {
        Ok(_) => assert!(true),
        Err(_) => assert!(false),
    };
}

#[test]
fn tx_cannot_create_non_positive_transaction() {
    match Transaction::new("A".to_string(), "B".to_string(), money(-1, "USD")) {
        Ok(_) => assert!(false),
        Err(_) => assert!(true),
    };

    match Transaction::new("A".to_string(), "B".to_string(), money(0, "USD")) {
        Ok(_) => assert!(false),
        Err(_) => assert!(true),
    };
}

#[test]
fn tx_holds_what_it_was_given() {
    let made = Transaction::new("A".to_string(), "B".to_string(), money(3, "GBP")).unwrap();
    assert_eq!(made.debtor(), "A");
    assert_eq!(made.creditor(), "B");
    assert_eq!(made.amount(), money(3, "GBP"));
    let refused = Transaction::new("A".to_string(), "B".to_string(), money(-3, "GBP")).unwrap_err();
    assert_eq!(refused.amount(), money(-3, "GBP"));
}

#[test]
fn tx_from_tuple_counts_whole_units() {
    let made = transaction("A", "B", (20, "USD"));
    assert_eq!(made.amount(), money(20, "USD"));
    assert_eq!(made.amount().amount(), 2000);
    let top = transaction("A", "B", (i32::MAX, "GBP"));
    assert_eq!(top.amount().amount(), 214_748_364_700);
    assert_eq!(top.amount().currency(), "GBP");
    assert!(Transaction::from_tuple("A".to_string(), "B".to_string(), (0, "USD")).is_err());
    assert!(Transaction::from_tuple("A".to_string(), "B".to_string(), (-4, "USD")).is_err());
    assert!(Transaction::from_tuple("A".to_string(), "B".to_string(), (i32::MIN, "USD")).is_err());
}

#[test]
fn mptx_refuses_negative_amounts_only() {
    assert!(MultiPartyTransaction::new(names(&["A"]), names(&["B"]), money(-1, "USD")).is_err());
    let none = MultiPartyTransaction::new(names(&["A"]), names(&["B"]), money(0, "USD")).unwrap();
    assert_eq!(none.amount(), money(0, "USD"));
    let some = MultiPartyTransaction::new(names(&["A", "B"]), names(&["C"]), money(5, "USD")).unwrap();
    assert_eq!(some.debtors(), &names(&["A", "B"]));
    assert_eq!(some.creditors(), &names(&["C"]));
    let refused =
        MultiPartyTransaction::new(names(&["A"]), names(&["B"]), money(-1, "USD")).unwrap_err();
    assert_eq!(refused.amount(), money(-1, "USD"));
}

#[test]
fn ledger_starts_empty() {
    let mut ledger = Ledger::new();
    assert!(ledger.to_vector().is_empty());
    assert!(ledger.settle().is_empty());
    assert!(ledger.settle_upto(5).is_empty());
    assert!(ledger.to_vector().is_empty());
}

#[test]
fn ledger_keeps_parties_in_the_order_they_were_named() {
    let mut ledger = Ledger::new();
    ledger.add_transaction(transaction("Alice", "Bob", (20, "USD")));
    ledger.add_transaction(transaction("Bob", "Charlie", (50, "USD")));
    ledger.add_transaction(transaction("Charlie", "Alice", (35, "USD")));
    let entries = ledger.to_vector();
    assert_eq!(
        entries,
        vec![
            ("Alice".to_string(), money(15, "USD")),
            ("Bob".to_string(), money(-30, "USD")),
            ("Charlie".to_string(), money(15, "USD")),
        ]
    );
}

#[test]
fn ledger_counts_a_payment_to_oneself_as_nothing() {
    let mut ledger = Ledger::new();
    ledger.add_transaction(transaction("A", "A", (9, "USD")));
    assert_eq!(ledger.to_vector(), vec![("A".to_string(), money(0, "USD"))]);
    assert!(ledger.settle().is_empty());
}

#[test]
fn ledger_settles_a_chain_with_one_payment() {
    let mut ledger = Ledger::new();
    ledger.add_transaction(transaction("Alice", "Bob", (20, "USD")));
    ledger.add_transaction(transaction("Bob", "Charlie", (20, "USD")));
    let payments = ledger.settle();
    assert_eq!(payments, vec![transaction("Alice", "Charlie", (20, "USD"))]);
    for entry in ledger.to_vector() {
        assert!(entry.1.is_zero());
    }
}

#[test]
fn ledger_settles_a_triangle_with_two_payments() {
    let mut ledger = Ledger::new();
    ledger.add_transaction(transaction("Alice", "Bob", (20, "USD")));
    ledger.add_transaction(transaction("Bob", "Charlie", (50, "USD")));
    ledger.add_transaction(transaction("Charlie", "Alice", (35, "USD")));
    let payments = ledger.settle();
    assert_eq!(
        payments,
        vec![
            transaction("Bob", "Alice", (15, "USD")),
            transaction("Bob", "Charlie", (15, "USD")),
        ]
    );
}

#[test]
fn ledger_balances_add_up_to_zero_after_every_entry() {
    let mut ledger = Ledger::new();
    let total = |ledger: &Ledger| -> i64 { ledger.to_vector().iter().map(|e| e.1.amount()).sum() };
    assert_eq!(total(&ledger), 0);
    ledger.add_transaction(transaction("A", "B", (7, "USD")));
    assert_eq!(total(&ledger), 0);
    ledger.add_multi_party_transaction(
        MultiPartyTransaction::new(names(&["A", "B", "C"]), names(&["D", "E"]), money(100, "USD"))
            .unwrap(),
    );
    assert_eq!(total(&ledger), 0);
    ledger.add_transaction(transaction("E", "A", (13, "USD")));
    assert_eq!(total(&ledger), 0);
    ledger.add_multi_party_transaction(
        MultiPartyTransaction::new(names(&["E", "E", "A"]), names(&["B"]), money(1, "USD")).unwrap(),
    );
    assert_eq!(total(&ledger), 0);
    ledger.add_multi_party_transaction(
        MultiPartyTransaction::new(names(&["X"]), names(&["Y", "Z", "X"]), money(0, "USD")).unwrap(),
    );
    assert_eq!(total(&ledger), 0);
    ledger.settle();
    assert_eq!(total(&ledger), 0);
}

#[test]
fn mptx_hands_out_shares_from_the_last_to_the_first() {
    let mut ledger = Ledger::new();
    ledger.add_multi_party_transaction(
        MultiPartyTransaction::new(names(&["A", "B", "C"]), names(&["D"]), money(10, "USD")).unwrap(),
    );
    assert_eq!(
        ledger.to_vector(),
        vec![
            ("A".to_string(), money(-3, "USD")),
            ("B".to_string(), money(-3, "USD")),
            ("C".to_string(), money(-4, "USD")),
            ("D".to_string(), money(10, "USD")),
        ]
    );
    let mut other = Ledger::new();
    other.add_multi_party_transaction(
        MultiPartyTransaction::new(names(&["A"]), names(&["B", "C", "D"]), money(11, "USD")).unwrap(),
    );
    assert_eq!(
        other.to_vector(),
        vec![
            ("A".to_string(), money(-11, "USD")),
            ("B".to_string(), money(3, "USD")),
            ("C".to_string(), money(4, "USD")),
            ("D".to_string(), money(4, "USD")),
        ]
    );
}

#[test]
fn ledger_settle_leaves_only_zero_balances() {
    for group_size in 0..7 {
        let mut ledger = Ledger::new();
        ledger.add_transaction(transaction("A", "B", (2, "USD")));
        ledger.add_transaction(transaction("C", "F", (3, "USD")));
        ledger.add_transaction(transaction("D", "F", (5, "USD")));
        ledger.add_transaction(transaction("E", "F", (7, "USD")));
        ledger.add_transaction(transaction("B", "G", (11, "USD")));
        ledger.add_multi_party_transaction(
            MultiPartyTransaction::new(names(&["G", "A", "H"]), names(&["C", "I"]), money(17, "USD"))
                .unwrap(),
        );
        let payments = ledger.settle_upto(group_size);
        assert!(payments.len() <= 8);
        for entry in ledger.to_vector() {
            assert!(entry.1.is_zero());
        }
    }
}

#[test]
fn ledger_payments_account_for_every_balance() {
    for group_size in 0..6 {
        let mut ledger = Ledger::new();
        ledger.add_transaction(transaction("A", "D", (3, "USD")));
        ledger.add_transaction(transaction("C", "D", (4, "USD")));
        ledger.add_transaction(transaction("E", "B", (10, "USD")));
        ledger.add_transaction(transaction("F", "B", (17, "USD")));
        ledger.add_transaction(transaction("B", "A", (1, "USD")));
        ledger.add_transaction(transaction("D", "E", (6, "USD")));
        let parties = ["A", "B", "C", "D", "E", "F", "G"];
        let before: Vec<i64> = parties.iter().map(|name| balance(&ledger, name)).collect();
        let payments = ledger.settle_upto(group_size);
        for (i, name) in parties.iter().enumerate() {
            let mut net: i64 = 0;
            for payment in &payments {
                assert!(payment.amount().is_positive());
                assert_eq!(payment.amount().currency(), "USD");
                if payment.debtor() == name {
                    net += payment.amount().amount();
                }
                if payment.creditor() == name {
                    net -= payment.amount().amount();
                }
            }
            assert_eq!(net, -before[i]);
            assert_eq!(balance(&ledger, name), 0);
        }
    }
}

#[test]
fn ledger_settle_upto_zero_only_clears_what_is_left() {
    let mut ledger = Ledger::new();
    ledger.add_transaction(transaction("A", "B", (2, "USD")));
    ledger.add_transaction(transaction("C", "F", (3, "USD")));
    ledger.add_transaction(transaction("D", "F", (5, "USD")));
    let payments = ledger.settle_upto(0);
    assert_eq!(
        payments,
        vec![
            transaction("A", "B", (2, "USD")),
            transaction("C", "F", (3, "USD")),
            transaction("D", "F", (5, "USD")),
        ]
    );
    let mut crossed = Ledger::new();
    crossed.add_transaction(transaction("A", "B", (3, "USD")));
    crossed.add_transaction(transaction("C", "D", (2, "USD")));
    crossed.add_transaction(transaction("E", "B", (2, "USD")));
    crossed.add_transaction(transaction("E", "F", (3, "USD")));
    assert_eq!(
        crossed.settle_upto(0),
        vec![
            transaction("A", "B", (3, "USD")),
            transaction("C", "B", (2, "USD")),
            transaction("E", "D", (2, "USD")),
            transaction("E", "F", (3, "USD")),
        ]
    );
}

#[test]
fn unbalanced_balances_are_reported_and_never_cleared() {
    let mut lone: Vec<i64> = vec![1000];
    assert_eq!(clear_all_entries(&mut lone), None);
    assert_eq!(lone, vec![1000]);
    let mut short: Vec<i64> = vec![-500, 300, 100];
    assert_eq!(settle_balances(&mut short, 2), None);
    assert_eq!(short.iter().sum::<i64>(), -100);
    assert!(short.iter().any(|b| *b != 0));
    let mut over: Vec<i64> = vec![-500, 300, 300];
    assert_eq!(settle_balances(&mut over, 3), None);
    assert_eq!(over.iter().sum::<i64>(), 100);
}

#[test]
fn tx_reads_as_who_owes_whom() {
    assert_eq!(
        transaction("Alice", "Charlie", (20, "USD")).to_text(),
        "Alice owes Charlie 20.00 USD"
    );
    let pence = Transaction::new("A".to_string(), "B".to_string(), Money::new(5, debtsolver::Currency::GBP))
        .unwrap();
    assert_eq!(pence.to_text(), "A owes B 0.05 GBP");
    let refused = Transaction::new("A".to_string(), "B".to_string(), money(-3, "USD")).unwrap_err();
    assert_eq!(
        refused.to_text(),
        "Transaction amount -3.00 USD is less than or equal to 0"
    );
}

#[test]
fn mptx_reads_as_who_owes_how_much_to_whom() {
    let shared =
        MultiPartyTransaction::new(names(&["A", "B", "C"]), names(&["D", "E"]), money(10, "USD")).unwrap();
    assert_eq!(shared.to_text(), "A,B,C owes 10.00 USD to D,E");
    let single = MultiPartyTransaction::new(names(&["A"]), names(&["D"]), money(0, "USD")).unwrap();
    assert_eq!(single.to_text(), "A owes 0.00 USD to D");
    let nobody = MultiPartyTransaction::new(names(&[]), names(&[]), money(1, "USD")).unwrap();
    assert_eq!(nobody.to_text(), " owes 1.00 USD to ");
}

#[test]
fn ledger_accepts_what_it_can_hold() {
    let mut ledger = Ledger::new();
    let pounds = Transaction::new("A".to_string(), "B".to_string(), money(1, "GBP")).unwrap();
    assert!(!ledger.accepts(&pounds));
    let most =
        Transaction::new("A".to_string(), "B".to_string(), Money::new(i64::MAX, debtsolver::Currency::USD))
            .unwrap();
    assert!(ledger.accepts(&most));
    ledger.add_transaction(most);
    let cent = Transaction::new("A".to_string(), "B".to_string(), Money::new(1, debtsolver::Currency::USD))
        .unwrap();
    assert!(!ledger.accepts(&cent));
    let back = Transaction::new("B".to_string(), "A".to_string(), Money::new(1, debtsolver::Currency::USD))
        .unwrap();
    assert!(ledger.accepts(&back));
    let lower = Transaction::new("A".to_string(), "C".to_string(), Money::new(1, debtsolver::Currency::USD))
        .unwrap();
    assert!(ledger.accepts(&lower));
    ledger.add_transaction(lower);
    assert_eq!(ledger.to_vector()[0].1.amount(), i64::MIN);
    let own = Transaction::new("B".to_string(), "B".to_string(), Money::new(1, debtsolver::Currency::USD))
        .unwrap();
    assert!(ledger.accepts(&own));
    let own = Transaction::new("A".to_string(), "A".to_string(), Money::new(1, debtsolver::Currency::USD))
        .unwrap();
    assert!(!ledger.accepts(&own));
    assert_eq!(ledger.settle().len(), 2);
}

#[test]
fn ledger_accepts_payments_of_several_parties_that_split() {
    let ledger = Ledger::new();
    let split = |debtors: &[&str], creditors: &[&str], amount: Money| {
        MultiPartyTransaction::new(names(debtors), names(creditors), amount).unwrap()
    };
    assert!(ledger.accepts_multi_party(&split(&["A", "B"], &["C"], money(10, "USD"))));
    assert!(ledger.accepts_multi_party(&split(&["A", "A"], &["A"], money(0, "USD"))));
    assert!(!ledger.accepts_multi_party(&split(&["A", "B"], &["C"], money(10, "GBP"))));
    assert!(!ledger.accepts_multi_party(&split(&[], &["C"], money(10, "USD"))));
    assert!(!ledger.accepts_multi_party(&split(&["A"], &[], money(10, "USD"))));
    assert!(!ledger.accepts_multi_party(&split(
        &["A"],
        &["B"],
        Money::new(1050, debtsolver::Currency::USD)
    )));
    let mut full = Ledger::new();
    full.add_transaction(
        Transaction::new("A".to_string(), "B".to_string(), Money::new(i64::MAX - 99, debtsolver::Currency::USD))
            .unwrap(),
    );
    assert!(!full.accepts_multi_party(&split(&["C"], &["B", "D"], money(2, "USD"))));
    assert!(!full.accepts_multi_party(&split(&["C"], &["D", "B"], money(1, "USD"))));
    assert!(full.accepts_multi_party(&split(&["C"], &["B", "D"], money(1, "USD"))));
    assert!(full.accepts_multi_party(&split(&["B"], &["A", "B"], money(2, "USD"))));
}
