use debtsolver::{Currency, Money};
use rust_decimal::Decimal;
use std::cmp::Ordering;

fn money(value: i32, code: &str) -> Money {
    Money::from_string(value.to_string(), code.to_string()).unwrap()
}

fn of_decimal(number: Decimal, code: &str) -> Money {
    Money::from_decimal(number.mantissa(), number.scale(), Currency::new(code.to_string())).unwrap()
}

#[test]
fn money_from_string_parses_correctly() {
    let expected_money = of_decimal(Decimal::new(2999, 2), "GBP");
    let money = Money::from_string("29.99".to_string(), "GBP".to_string()).unwrap();
    assert_eq!(money, expected_money);
}

#[test]
fn money_from_string_parses_signs() {
    let expected_money = of_decimal(Decimal::new(-3, 0), "GBP");
    let money = Money::from_string("-3".to_string(), "GBP".to_string()).unwrap();
    assert_eq!(money, expected_money);

    let expected_money = of_decimal(Decimal::new(3, 0), "GBP");
    let money = Money::from_string("+3".to_string(), "GBP".to_string()).unwrap();
    assert_eq!(money, expected_money);
}

#[test]
fn money_from_string_rounds_significant_digits() {
    let expected_money = of_decimal(Decimal::new(30, 0), "GBP");
    let money = Money::from_string("29.9999".to_string(), "GBP".to_string()).unwrap();
    assert_eq!(money, expected_money);
}

#[test]
fn money_from_string_ignores_separators() {
    let expected_money = of_decimal(Decimal::new(1000000, 0), "GBP");
    let money = Money::from_string("1,000,000".to_string(), "GBP".to_string()).unwrap();
    assert_eq!(money, expected_money);
}

#[test]
#[should_panic]
fn money_from_string_panics_if_delimiter_preceeds_separator() {
    Money::from_string("1.0000,000".to_string(), "GBP".to_string()).unwrap();
}

#[test]
#[should_panic]
fn money_from_string_panics_if_multiple_delimiters() {
    Money::from_string("1.0000.000".to_string(), "GBP".to_string()).unwrap();
}

#[test]
#[should_panic]
fn money_from_string_panics_if_unrecognized_character() {
    Money::from_string("1.0000!000".to_string(), "GBP".to_string()).unwrap();
}

#[test]
#[should_panic]
fn money_from_string_panics_if_only_separator() {
    Money::from_string(",".to_string(), "GBP".to_string()).unwrap();
}

#[test]
#[should_panic]
fn money_from_string_panics_if_no_digits() {
    Money::from_string(".".to_string(), "GBP".to_string()).unwrap();
}

#[test]
#[should_panic]
fn money_from_string_panics_if_only_separators_and_delimiters() {
    Money::from_string(",,.".to_string(), "GBP".to_string()).unwrap();
}

#[test]
fn money_ops() {
    // Addition
    assert_eq!(money(2, "USD"), money(1, "USD") + money(1, "USD"));
    // Subtraction
    assert_eq!(money(0, "USD"), money(1, "USD") - money(1, "USD"));
    // Greater Than
    assert_eq!(true, money(2, "USD") > money(1, "USD"));
    // Less Than
    assert_eq!(false, money(2, "USD") < money(1, "USD"));
    // Equals
    assert_eq!(true, money(1, "USD") == money(1, "USD"));
    assert_eq!(false, money(1, "USD") == money(1, "GBP"));
    // is positive
    assert_eq!(true, money(1, "USD").is_positive());
    assert_eq!(false, money(0, "USD").is_positive());
    assert_eq!(false, money(-1, "USD").is_positive());

    // is zero
    assert_eq!(true, money(0, "USD").is_zero());
    assert_eq!(false, money(1, "USD").is_zero());
    assert_eq!(false, money(-1, "USD").is_zero());

    // is negative
    assert_eq!(true, money(-1, "USD").is_negative());
    assert_eq!(false, money(1, "USD").is_negative());
    assert_eq!(false, money(0, "USD").is_negative());
}

#[test]
#[should_panic]
fn money_ops_greater_than_panics_on_different_currencies() {
    assert!(money(1, "USD").compare(&money(1, "GBP")).unwrap() == Ordering::Less);
}

#[test]
#[should_panic]
fn money_ops_less_than_panics_on_different_currencies() {
    assert!(money(1, "USD").compare(&money(1, "GBP")).unwrap() == Ordering::Less);
}

#[test]
fn money_allocate() {
    let money_11 = money(11, "USD");
    let allocs = money_11.allocate(vec![1, 1, 1]).unwrap();
    let expected_results = vec![money(4, "USD"), money(4, "USD"), money(3, "USD")];
    assert_eq!(expected_results, allocs);
}

#[test]
#[should_panic]
fn money_allocate_panics_if_empty() {
    money(1, "USD").allocate(Vec::new()).unwrap();
}

#[test]
#[should_panic]
fn money_allocate_panics_any_ratio_is_zero() {
    money(1, "USD").allocate(vec![1, 0]).unwrap();
}

#[test]
fn money_allocate_to() {
    let money_11 = money(11, "USD");
    let allocs = money_11.allocate_to(3).unwrap();
    let expected_results = vec![money(4, "USD"), money(4, "USD"), money(3, "USD")];
    assert_eq!(expected_results, allocs);
}

#[test]
#[should_panic]
fn money_allocate_to_panics_if_zero() {
    money(1, "USD").allocate_to(0).unwrap();
}

#[test]
fn currency_finds_known_codes_only() {
    assert_eq!(Currency::find("USD"), Some(Currency::USD));
    assert_eq!(Currency::find("GBP"), Some(Currency::GBP));
    assert_eq!(Currency::find("EUR"), None);
    assert_eq!(Currency::find("usd"), None);
    assert_eq!(Currency::find(""), None);
    assert_eq!(Currency::new("USD".to_string()), Currency::USD);
    assert_eq!(Currency::USD.name(), "USD");
    assert_eq!(Currency::GBP.name(), "GBP");
}

#[test]
fn money_holds_hundredths_and_currency() {
    let held = Money::new(2999, Currency::GBP);
    assert_eq!(held.amount(), 2999);
    assert_eq!(held.currency(), "GBP");
    assert_eq!(money(7, "USD").amount(), 700);
    assert_eq!(money(-7, "USD").amount(), -700);
}

#[test]
fn money_from_string_rejects_unknown_currency() {
    assert_eq!(Money::from_string("1".to_string(), "EUR".to_string()), None);
    assert_eq!(Money::from_string("1".to_string(), "".to_string()), None);
}

#[test]
fn money_from_string_reads_exact_hundredths() {
    let read = |text: &str| Money::from_string(text.to_string(), "USD".to_string()).map(|m| m.amount());
    assert_eq!(read("0"), Some(0));
    assert_eq!(read("-0"), Some(0));
    assert_eq!(read("12"), Some(1200));
    assert_eq!(read("12.3"), Some(1230));
    assert_eq!(read("12.34"), Some(1234));
    assert_eq!(read("-12.34"), Some(-1234));
    assert_eq!(read("1,2,3.4"), Some(12340));
    assert_eq!(read("2147483647"), Some(214748364700));
    assert_eq!(read("-2147483648"), Some(-214748364800));
    assert_eq!(read("007.50"), Some(750));
}

#[test]
fn money_from_string_rounds_half_to_even() {
    let read = |text: &str| Money::from_string(text.to_string(), "USD".to_string()).map(|m| m.amount());
    assert_eq!(read("0.125"), Some(12));
    assert_eq!(read("0.135"), Some(14));
    assert_eq!(read("0.1251"), Some(13));
    assert_eq!(read("-0.125"), Some(-12));
    assert_eq!(read("-0.135"), Some(-14));
    assert_eq!(read("1.005"), Some(100));
    assert_eq!(read("1.015"), Some(102));
    assert_eq!(read("0.0049"), Some(0));
    assert_eq!(read("0.995"), Some(100));
}

#[test]
fn money_from_string_rejects_what_is_no_amount() {
    let read = |text: &str| Money::from_string(text.to_string(), "USD".to_string());
    assert_eq!(read(""), None);
    assert_eq!(read("+"), None);
    assert_eq!(read("-"), None);
    assert_eq!(read("1."), None);
    assert_eq!(read(".5"), None);
    assert_eq!(read("1.-5"), None);
    assert_eq!(read("1.+5"), None);
    assert_eq!(read("--1"), None);
    assert_eq!(read("1 "), None);
    assert_eq!(read(" 1"), None);
    assert_eq!(read("1e3"), None);
    assert_eq!(read("1_000"), None);
    assert_eq!(read("2147483648"), None);
    assert_eq!(read("-2147483649"), None);
    assert_eq!(read("1.2147483648"), None);
    assert_eq!(read("١"), None);
}

#[test]
fn money_from_decimal_rounds_like_the_decimal_number() {
    let cases: Vec<(i128, u32)> = vec![
        (0, 0),
        (5, 0),
        (-5, 0),
        (25, 1),
        (2999, 2),
        (125, 3),
        (135, 3),
        (-125, 3),
        (-135, 3),
        (1251, 4),
        (-1251, 4),
        (999_999, 4),
        (-999_999, 4),
        (5, 3),
        (15, 3),
        (-5, 3),
        (-15, 3),
        (1, 28),
        (-1, 28),
        (50_000_000_000_000_000_000_000_000, 28),
        (150_000_000_000_000_000_000_000_000, 28),
        (123_456_789_012_345, 7),
        (-123_456_789_012_345, 7),
    ];
    for (mantissa, scale) in cases {
        let rounded = Decimal::from_i128_with_scale(mantissa, scale).round_dp(2);
        let mut expected = rounded.mantissa();
        let mut at = rounded.scale();
        while at < 2 {
            expected *= 10;
            at += 1;
        }
        let held = Money::from_decimal(mantissa, scale, Currency::USD).unwrap();
        assert_eq!(held.amount() as i128, expected);
    }
}

#[test]
fn money_from_decimal_refuses_what_it_cannot_hold() {
    assert_eq!(Money::from_decimal(1, 29, Currency::USD), None);
    assert_eq!(Money::from_decimal(i128::MAX, 0, Currency::USD), None);
    assert_eq!(Money::from_decimal(i128::MIN, 0, Currency::USD), None);
    assert_eq!(Money::from_decimal(92_233_720_368_547_759, 0, Currency::USD), None);
    assert_eq!(
        Money::from_decimal(92_233_720_368_547_758, 0, Currency::USD).map(|m| m.amount()),
        Some(9_223_372_036_854_775_800)
    );
    assert_eq!(
        Money::from_decimal(i64::MAX as i128, 2, Currency::USD).map(|m| m.amount()),
        Some(i64::MAX)
    );
    assert_eq!(
        Money::from_decimal(i64::MIN as i128, 2, Currency::USD).map(|m| m.amount()),
        Some(i64::MIN)
    );
    assert_eq!(Money::from_decimal(i128::MAX, 28, Currency::USD).map(|m| m.amount()), Some(1_701_411_834_605));
}

#[test]
fn money_compare_orders_amounts_of_one_currency() {
    assert_eq!(money(1, "USD").compare(&money(2, "USD")), Some(Ordering::Less));
    assert_eq!(money(2, "USD").compare(&money(2, "USD")), Some(Ordering::Equal));
    assert_eq!(money(3, "USD").compare(&money(2, "USD")), Some(Ordering::Greater));
    assert_eq!(money(-3, "GBP").compare(&money(2, "GBP")), Some(Ordering::Less));
    assert_eq!(money(2, "GBP").compare(&money(2, "USD")), None);
}

#[test]
fn money_add_assign_and_sub_assign() {
    let mut held = money(5, "USD");
    held.add_assign(money(3, "USD"));
    assert_eq!(held, money(8, "USD"));
    held.sub_assign(money(10, "USD"));
    assert_eq!(held, money(-2, "USD"));
}

#[test]
fn money_allocate_keeps_the_sum_and_the_order() {
    let amounts: Vec<i32> = vec![0, 1, 2, 3, 7, 10, 11, 100, 101, 999, 12345];
    let lists: Vec<Vec<i32>> = vec![
        vec![1],
        vec![1, 1],
        vec![1, 1, 1],
        vec![3, 2, 1],
        vec![1, 2, 3],
        vec![70, 20, 10],
        vec![1, 1000],
        vec![i32::MAX, 1, i32::MAX],
        vec![5, 5, 5, 5, 5, 5, 5],
    ];
    for amount in &amounts {
        for ratios in &lists {
            let whole = money(*amount, "USD");
            let parts = whole.allocate(ratios.clone()).unwrap();
            assert_eq!(parts.len(), ratios.len());
            let total: i64 = parts.iter().map(|part| part.amount()).sum();
            assert_eq!(total, whole.amount());
            let ratio_total: i128 = ratios.iter().map(|r| *r as i128).sum();
            let units = (*amount) as i128;
            let floors: Vec<i128> = ratios.iter().map(|r| units * (*r as i128) / ratio_total).collect();
            let left = units - floors.iter().sum::<i128>();
            for (i, part) in parts.iter().enumerate() {
                assert!(part.amount() >= 0);
                assert_eq!(part.currency(), "USD");
                let extra = if (i as i128) < left { 1 } else { 0 };
                assert_eq!(part.amount() as i128, (floors[i] + extra) * 100);
            }
        }
    }
}

#[test]
fn money_allocate_exact_values() {
    let parts = |amount: i32, ratios: Vec<i32>| -> Vec<i64> {
        money(amount, "USD").allocate(ratios).unwrap().iter().map(|p| p.amount()).collect()
    };
    assert_eq!(parts(10, vec![1, 1, 1]), vec![400, 300, 300]);
    assert_eq!(parts(100, vec![70, 20, 10]), vec![7000, 2000, 1000]);
    assert_eq!(parts(5, vec![3, 7]), vec![200, 300]);
    assert_eq!(parts(1, vec![1, 1, 1, 1]), vec![100, 0, 0, 0]);
    assert_eq!(parts(0, vec![1, 2]), vec![0, 0]);
    assert_eq!(parts(-10, vec![1, 1, 1]), vec![-300, -300, -400]);
    assert_eq!(parts(-1, vec![1, 1, 1]), vec![0, 0, -100]);
    assert_eq!(parts(7, vec![1]), vec![700]);
}

#[test]
fn money_allocate_refuses_bad_ratios_and_broken_units() {
    assert_eq!(money(1, "USD").allocate(vec![]), None);
    assert_eq!(money(1, "USD").allocate(vec![0]), None);
    assert_eq!(money(1, "USD").allocate(vec![1, -1]), None);
    assert_eq!(money(1, "USD").allocate(vec![2, 0, 2]), None);
    assert_eq!(Money::new(1050, Currency::USD).allocate(vec![1, 1]), None);
    assert_eq!(Money::new(-1, Currency::USD).allocate(vec![1]), None);
    assert_eq!(money(1, "USD").allocate_to(0), None);
    assert_eq!(money(1, "USD").allocate_to(-3), None);
    assert_eq!(Money::new(1050, Currency::USD).allocate_to(2), None);
}

#[test]
fn money_allocate_to_splits_evenly() {
    let parts: Vec<i64> = money(10, "GBP").allocate_to(4).unwrap().iter().map(|p| p.amount()).collect();
    assert_eq!(parts, vec![300, 300, 200, 200]);
    let whole = Money::new(i64::MAX - 7, Currency::USD);
    let parts = whole.allocate_to(3).unwrap();
    let total: i128 = parts.iter().map(|p| p.amount() as i128).sum();
    assert_eq!(total, whole.amount() as i128);
    let low = Money::new(i64::MIN + 8, Currency::USD);
    let parts = low.allocate_to(7).unwrap();
    let total: i128 = parts.iter().map(|p| p.amount() as i128).sum();
    assert_eq!(total, low.amount() as i128);
}

#[test]
fn money_reads_as_number_and_currency() {
    assert_eq!(money(10, "USD").to_text(), "10.00 USD");
    assert_eq!(Money::new(2999, Currency::GBP).to_text(), "29.99 GBP");
    assert_eq!(Money::new(-5, Currency::USD).to_text(), "-0.05 USD");
    assert_eq!(Money::new(0, Currency::USD).to_text(), "0.00 USD");
    assert_eq!(Money::new(i64::MAX, Currency::USD).to_text(), "92233720368547758.07 USD");
    assert_eq!(Money::new(i64::MIN, Currency::USD).to_text(), "-92233720368547758.08 USD");
}

#[test]
fn money_from_string_reads_long_runs_of_zeros() {
    let read = |text: &str| Money::from_string(text.to_string(), "USD".to_string()).map(|m| m.amount());
    assert_eq!(read("1,000.50"), Some(100050));
    assert_eq!(read("1.000000000000000000000000000000000001"), Some(100));
    assert_eq!(read("0.000000000000000000000000000000000000"), Some(0));
    assert_eq!(read("000000000000000000000000000000000000000005"), Some(500));
    assert_eq!(read("-000000000000000000000000000000000000000005.0000000000000000000000000000009"), Some(-500));
    assert_eq!(read(",,,1,,,2,,,"), Some(1200));
    assert_eq!(read("+0"), Some(0));
    assert_eq!(read("+2147483647.2147483647"), Some(214748364721));
}
