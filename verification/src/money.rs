//! Exact fixed-point money.

use vstd::prelude::*;
use core::cmp::Ordering;
use crate::text::{amount_text, with_code, write_amount};
use crate::parsing::{decimal_hundredths, hundredths_of_decimal, read_hundredths, text_hundredths};
use crate::allocation::{
    floor_share, floor_sum, law_shares_sum, leftover, lemma_floor_share_range,
    lemma_leftover_bounds, lemma_ratio_total_bounds, lemma_share_range, ratio_total, share,
    shares, valid_ratios,
};
use crate::sums::sum;

verus! {

/// The currencies this library knows.
#[derive(Clone, Copy, Debug, PartialEq, Eq, PartialOrd, Ord, Hash, Structural)]
pub enum Currency {
    USD,
    GBP,
}

impl Currency {
    /// The three-letter code of this currency.
    pub open spec fn code(self) -> Seq<char> {
        match self {
            Currency::USD => "USD"@,
            Currency::GBP => "GBP"@,
        }
    }

    /// Whether `name` is the code of a known currency.
    pub open spec fn is_code(name: Seq<char>) -> bool {
        name == "USD"@ || name == "GBP"@
    }

    /// The currency whose code is `name`, if there is one.
    pub fn find(name: &str) -> (found: Option<Currency>)
        ensures
            found is Some <==> Currency::is_code(name@),
            found matches Some(c) ==> c.code() == name@,
    {
        proof {
            reveal_strlit("USD");
            reveal_strlit("GBP");
        }
        if str_equal(name, "USD") {
            Some(Currency::USD)
        } else if str_equal(name, "GBP") {
            Some(Currency::GBP)
        } else {
            None
        }
    }

    /// The currency whose code is `name`.
    pub fn new(name: String) -> (currency: Currency)
        requires
            Currency::is_code(name@),
        ensures
            currency.code() == name@,
    {
        proof {
            reveal_strlit("USD");
            reveal_strlit("GBP");
        }
        if str_equal(name.as_str(), "USD") {
            Currency::USD
        } else {
            Currency::GBP
        }
    }

    /// The code of this currency as text.
    pub fn name(&self) -> (text: &'static str)
        ensures
            text@ == self.code(),
    {
        match self {
            Currency::USD => "USD",
            Currency::GBP => "GBP",
        }
    }
}

/// Whether two strings hold the same characters.
fn str_equal(a: &str, b: &str) -> (same: bool)
    ensures
        same == (a@ == b@),
{
    let n = a.unicode_len();
    if n != b.unicode_len() {
        return false;
    }
    let mut i: usize = 0;
    while i < n
        invariant
            n == a@.len(),
            n == b@.len(),
            i <= n,
            forall|j: int| 0 <= j < i ==> a@[j] == b@[j],
        decreases n - i,
    {
        if a.get_char(i) != b.get_char(i) {
            return false;
        }
        i += 1;
    }
    assert(a@ =~= b@);
    true
}

/// An amount of money: a whole number of hundredths of one currency.
#[derive(Clone, Copy, Debug, PartialEq, Eq, PartialOrd, Ord, Hash, Structural)]
pub struct Money {
    amount: i64,
    currency: Currency,
}

impl Money {
    /// The amount in hundredths of a unit.
    pub closed spec fn hundredths(self) -> int {
        self.amount as int
    }

    /// The currency of the amount.
    pub closed spec fn unit(self) -> Currency {
        self.currency
    }

    /// The money that holds `hundredths` hundredths of `unit`.
    pub closed spec fn of(hundredths: int, unit: Currency) -> Money {
        Money { amount: hundredths as i64, currency: unit }
    }

    /// Whether the amount is a whole number of units.
    pub open spec fn is_whole(self) -> bool {
        self.hundredths() % 100 == 0
    }

    /// The whole units in the amount, rounded down.
    pub open spec fn units(self) -> int {
        self.hundredths() / 100
    }

    /// The sum of the amounts of `parts`, in hundredths.
    pub open spec fn total(parts: Seq<Money>) -> int
        decreases parts.len(),
    {
        if parts.len() == 0 {
            0
        } else {
            Money::total(parts.drop_last()) + parts.last().hundredths()
        }
    }

    /// Whether `parts` holds the shares of this amount by `ratios`: one
    /// part for each ratio, in the order of the ratios, in the currency of
    /// the amount.
    pub open spec fn splits_into(self, ratios: Seq<i32>, parts: Seq<Money>) -> bool {
        &&& parts.len() == ratios.len()
        &&& forall|i: int|
            0 <= i < parts.len() ==> (#[trigger] parts[i]).hundredths() == 100 * share(
                self.units(),
                ratios,
                i,
            ) && parts[i].unit() == self.unit()
    }

    /// The amount as text: the number with two decimal places, a blank,
    /// and the code of the currency.
    pub open spec fn text(self) -> Seq<char> {
        amount_text(self.hundredths()) + " "@ + self.unit().code()
    }

    /// `number` ones: the ratios of an even split.
    pub open spec fn even_ratios(number: int) -> Seq<i32> {
        Seq::new(number as nat, |i: int| 1i32)
    }

    /// `amount` hundredths of `currency`.
    pub fn new(amount: i64, currency: Currency) -> (money: Money)
        ensures
            money == Money::of(amount as int, currency),
            money.hundredths() == amount,
            money.unit() == currency,
    {
        Money { amount, currency }
    }

    /// The amount in hundredths of a unit.
    pub fn amount(&self) -> (amount: i64)
        ensures
            amount == self.hundredths(),
    {
        self.amount
    }

    /// The currency of the amount.
    pub fn denomination(&self) -> (currency: Currency)
        ensures
            currency == self.unit(),
    {
        self.currency
    }

    /// The code of the currency.
    pub fn currency(&self) -> (code: &'static str)
        ensures
            code@ == self.unit().code(),
    {
        self.currency.name()
    }

    /// Whether the amount is zero.
    pub fn is_zero(&self) -> (zero: bool)
        ensures
            zero == (self.hundredths() == 0),
    {
        self.amount == 0
    }

    /// Whether the amount is above zero.
    pub fn is_positive(&self) -> (positive: bool)
        ensures
            positive == (self.hundredths() > 0),
    {
        self.amount > 0
    }

    /// Whether the amount is below zero.
    pub fn is_negative(&self) -> (negative: bool)
        ensures
            negative == (self.hundredths() < 0),
    {
        self.amount < 0
    }
}

impl Money {
    /// Splits the amount by `ratios`, in whole units, so that nothing is
    /// lost: every ratio gets its part rounded down, and the units that are
    /// left go one each to the first ratios. `None` where there is no
    /// ratio, where a ratio is zero or less, or where the amount is not a
    /// whole number of units.
    pub fn allocate(&self, ratios: Vec<i32>) -> (parts: Option<Vec<Money>>)
        ensures
            parts is Some <==> valid_ratios(ratios@) && self.is_whole(),
            parts matches Some(p) ==> self.splits_into(ratios@, p@),
            parts matches Some(p) ==> Money::total(p@) == self.hundredths(),
            parts matches Some(p) ==> self.hundredths() >= 0 ==> forall|i: int|
                0 <= i < p@.len() ==> 0 <= (#[trigger] p@[i]).hundredths() <= self.hundredths(),
    {
        if ratios.len() == 0 {
            return None;
        }
        let mut i: usize = 0;
        while i < ratios.len()
            invariant
                i <= ratios@.len(),
                forall|j: int| 0 <= j < i ==> ratios@[j] > 0,
            decreases ratios@.len() - i,
        {
            if ratios[i] <= 0 {
                return None;
            }
            i += 1;
        }
        match self.amount.checked_rem_euclid(100) {
            Some(rest) => {
                if rest != 0 {
                    return None;
                }
            },
            None => {
                return None;
            },
        }
        Some(self.split(&ratios))
    }

    /// The split of a whole amount by valid ratios.
    fn split(&self, ratios: &Vec<i32>) -> (parts: Vec<Money>)
        requires
            valid_ratios(ratios@),
            self.is_whole(),
        ensures
            self.splits_into(ratios@, parts@),
            Money::total(parts@) == self.hundredths(),
            self.hundredths() >= 0 ==> forall|i: int|
                0 <= i < parts@.len() ==> 0 <= (#[trigger] parts@[i]).hundredths()
                    <= self.hundredths(),
    {
        let n = ratios.len();
        let ghost units = self.units();
        let units_exec: i128 = (self.amount as i128).checked_div_euclid(100).unwrap();
        let total = sum_ratios(ratios);
        proof {
            lemma_ratio_total_bounds(ratios@);
            lemma_leftover_bounds(units, ratios@);
        }
        let mut floors: Vec<i64> = Vec::new();
        let mut given: i128 = 0;
        let mut i: usize = 0;
        while i < n
            invariant
                n == ratios@.len(),
                i <= n,
                valid_ratios(ratios@),
                total == ratio_total(ratios@),
                n <= total <= n * i32::MAX,
                units_exec == units,
                i64::MIN <= units * 100 <= i64::MAX,
                floors@.len() == i,
                forall|j: int|
                    0 <= j < i ==> #[trigger] floors@[j] == floor_share(
                        units,
                        ratios@[j] as int,
                        total as int,
                    ),
                given == floor_sum(units, ratios@.take(i as int), total as int),
                units >= 0 ==> 0 <= given <= i * units,
                units < 0 ==> i * units <= given <= 0,
            decreases n - i,
        {
            let ratio = ratios[i];
            proof {
                lemma_ratio_total_bounds(ratios@);
                lemma_floor_share_range(units, ratio as int, total as int);
                assert(-0x8000_0000_0000_0000 * 0x8000_0000 <= units * ratio
                    <= 0x8000_0000_0000_0000 * 0x8000_0000) by (nonlinear_arith)
                    requires
                        -0x8000_0000_0000_0000 <= units <= 0x8000_0000_0000_0000,
                        0 < ratio <= 0x8000_0000,
                ;
                assert(ratios@.take(i + 1).drop_last() =~= ratios@.take(i as int));
                assert((i + 1) * units == i * units + units) by (nonlinear_arith);
                assert(-0x1_0000_0000_0000_0000 * 0x200_0000_0000_0000 <= (i + 1) * units
                    <= 0x1_0000_0000_0000_0000 * 0x200_0000_0000_0000) by (nonlinear_arith)
                    requires
                        -0x200_0000_0000_0000 <= units <= 0x200_0000_0000_0000,
                        0 <= i + 1 <= 0x1_0000_0000_0000_0000,
                ;
            }
            let part: i128 = (units_exec * (ratio as i128)).checked_div_euclid(total).unwrap();
            floors.push(part as i64);
            given = given + part;
            i += 1;
        }
        assert(ratios@.take(n as int) =~= ratios@);
        let left: i128 = units_exec - given;
        let mut parts: Vec<Money> = Vec::new();
        let mut k: usize = 0;
        while k < n
            invariant
                n == ratios@.len(),
                k <= n,
                valid_ratios(ratios@),
                total == ratio_total(ratios@),
                i64::MIN <= units * 100 <= i64::MAX,
                units == self.units(),
                floors@.len() == n,
                forall|j: int|
                    0 <= j < n ==> #[trigger] floors@[j] == floor_share(
                        units,
                        ratios@[j] as int,
                        total as int,
                    ),
                left == leftover(units, ratios@),
                parts@.len() == k,
                forall|j: int|
                    0 <= j < k ==> (#[trigger] parts@[j]).hundredths() == 100 * share(
                        units,
                        ratios@,
                        j,
                    ) && parts@[j].unit() == self.unit(),
            decreases n - k,
        {
            proof {
                lemma_share_range(units, ratios@, k as int);
            }
            let extra: i64 = if (k as i128) < left {
                1
            } else {
                0
            };
            let whole: i64 = floors[k] + extra;
            parts.push(Money { amount: whole * 100, currency: self.currency });
            k += 1;
        }
        proof {
            law_shares_sum(units, ratios@);
            lemma_total_of_shares(parts@, shares(units, ratios@));
            if self.hundredths() >= 0 {
                assert forall|j: int| 0 <= j < parts@.len() implies 0 <= (
                #[trigger] parts@[j]).hundredths() <= self.hundredths() by {
                    lemma_share_range(units, ratios@, j);
                }
            }
        }
        parts
    }

    /// Splits the amount evenly into `number` parts, in whole units, so
    /// that nothing is lost: the units that do not divide go one each to
    /// the first parts. `None` where `number` is zero or less, or where the
    /// amount is not a whole number of units.
    pub fn allocate_to(&self, number: i32) -> (parts: Option<Vec<Money>>)
        ensures
            parts is Some <==> number > 0 && self.is_whole(),
            parts matches Some(p) ==> self.splits_into(Money::even_ratios(number as int), p@),
            parts matches Some(p) ==> Money::total(p@) == self.hundredths(),
            parts matches Some(p) ==> self.hundredths() >= 0 ==> forall|i: int|
                0 <= i < p@.len() ==> 0 <= (#[trigger] p@[i]).hundredths() <= self.hundredths(),
    {
        if number <= 0 {
            return None;
        }
        let mut ratios: Vec<i32> = Vec::new();
        let mut i: i32 = 0;
        while i < number
            invariant
                0 <= i <= number,
                ratios@ =~= Money::even_ratios(i as int),
            decreases number - i,
        {
            ratios.push(1);
            i += 1;
        }
        self.allocate(ratios)
    }
}

/// The sum of `ratios`.
fn sum_ratios(ratios: &Vec<i32>) -> (total: i128)
    requires
        forall|i: int| 0 <= i < ratios@.len() ==> ratios@[i] > 0,
    ensures
        total == ratio_total(ratios@),
{
    let n = ratios.len();
    let mut total: i128 = 0;
    let mut i: usize = 0;
    while i < n
        invariant
            n == ratios@.len(),
            i <= n,
            forall|j: int| 0 <= j < ratios@.len() ==> ratios@[j] > 0,
            total == ratio_total(ratios@.take(i as int)),
            0 <= total <= i * i32::MAX,
        decreases n - i,
    {
        proof {
            assert(ratios@.take(i + 1).drop_last() =~= ratios@.take(i as int));
            assert((i + 1) * i32::MAX == i * i32::MAX + i32::MAX) by (nonlinear_arith);
            assert((i + 1) * i32::MAX <= 0x1_0000_0000_0000_0000 * 0x8000_0000) by (nonlinear_arith)
                requires
                    0 <= i + 1 <= 0x1_0000_0000_0000_0000,
            ;
        }
        total = total + ratios[i] as i128;
        i += 1;
    }
    assert(ratios@.take(n as int) =~= ratios@);
    total
}

/// Parts that each hold a hundred times a share add up to a hundred times
/// the sum of the shares.
proof fn lemma_total_of_shares(parts: Seq<Money>, shares: Seq<int>)
    requires
        parts.len() == shares.len(),
        forall|i: int| 0 <= i < parts.len() ==> (#[trigger] parts[i]).hundredths() == 100 * shares[i],
    ensures
        Money::total(parts) == 100 * sum(shares),
    decreases parts.len(),
{
    if parts.len() > 0 {
        assert forall|i: int| 0 <= i < parts.drop_last().len() implies (
        #[trigger] parts.drop_last()[i]).hundredths() == 100 * shares.drop_last()[i] by {
            assert(parts.drop_last()[i] == parts[i]);
        }
        lemma_total_of_shares(parts.drop_last(), shares.drop_last());
    }
}

impl Money {
    /// The amount that the decimal number `mantissa / 10^scale` comes to,
    /// rounded to hundredths, half to even. `None` where the scale is above
    /// 28 or the hundredths do not fit in 64 bits.
    pub fn from_decimal(mantissa: i128, scale: u32, currency: Currency) -> (money: Option<Money>)
        ensures
            money is Some <==> decimal_hundredths(mantissa as int, scale as nat) is Some,
            money matches Some(m) ==> decimal_hundredths(mantissa as int, scale as nat) == Some(
                m.hundredths(),
            ) && m.unit() == currency,
    {
        match hundredths_of_decimal(mantissa, scale) {
            Some(amount) => Some(Money { amount, currency }),
            None => None,
        }
    }

    /// Reads an amount from text: an integer, which may hold `,` between
    /// its digits, and at most one `.` with a fraction behind it, rounded
    /// to hundredths. `None` where `amount` is no such text, where the
    /// number cannot be held, or where `currency` is no known code.
    pub fn from_string(amount: String, currency: String) -> (money: Option<Money>)
        ensures
            money is Some <==> Currency::is_code(currency@) && text_hundredths(amount@) is Some,
            money matches Some(m) ==> text_hundredths(amount@) == Some(m.hundredths())
                && m.unit().code() == currency@,
    {
        let unit = match Currency::find(currency.as_str()) {
            Some(unit) => unit,
            None => {
                return None;
            },
        };
        match read_hundredths(amount.as_str()) {
            Some(amount) => Some(Money { amount, currency: unit }),
            None => None,
        }
    }

    /// The amount as text: the number with two decimal places, a blank,
    /// and the code of the currency.
    pub fn to_text(&self) -> (text: String)
        ensures
            text@ == self.text(),
    {
        with_code(write_amount(self.amount), self.currency.name())
    }

    /// How this amount stands to `other`: by the amounts, where both are of
    /// one currency; `None` where they are not.
    pub fn compare(&self, other: &Money) -> (order: Option<Ordering>)
        ensures
            order is None <==> self.unit() != other.unit(),
            order == Some(Ordering::Less) <==> self.unit() == other.unit() && self.hundredths()
                < other.hundredths(),
            order == Some(Ordering::Equal) <==> self.unit() == other.unit() && self.hundredths()
                == other.hundredths(),
            order == Some(Ordering::Greater) <==> self.unit() == other.unit() && self.hundredths()
                > other.hundredths(),
    {
        if self.currency != other.currency {
            None
        } else if self.amount < other.amount {
            Some(Ordering::Less)
        } else if self.amount == other.amount {
            Some(Ordering::Equal)
        } else {
            Some(Ordering::Greater)
        }
    }

    /// Adds `other` to this amount.
    pub fn add_assign(&mut self, other: Money)
        requires
            old(self).unit() == other.unit(),
            i64::MIN <= old(self).hundredths() + other.hundredths() <= i64::MAX,
        ensures
            final(self).hundredths() == old(self).hundredths() + other.hundredths(),
            final(self).unit() == old(self).unit(),
    {
        self.amount = self.amount + other.amount;
    }

    /// Takes `other` from this amount.
    pub fn sub_assign(&mut self, other: Money)
        requires
            old(self).unit() == other.unit(),
            i64::MIN <= old(self).hundredths() - other.hundredths() <= i64::MAX,
        ensures
            final(self).hundredths() == old(self).hundredths() - other.hundredths(),
            final(self).unit() == old(self).unit(),
    {
        self.amount = self.amount - other.amount;
    }

    /// `Money::of` holds what it was given, where that fits in 64 bits.
    pub proof fn lemma_of(hundredths: int, unit: Currency)
        requires
            i64::MIN <= hundredths <= i64::MAX,
        ensures
            Money::of(hundredths, unit).hundredths() == hundredths,
            Money::of(hundredths, unit).unit() == unit,
    {
    }
}

impl core::ops::Add for Money {
    type Output = Money;

    fn add(self, other: Money) -> (sum: Money)
        ensures
            sum.hundredths() == self.hundredths() + other.hundredths(),
            sum.unit() == self.unit(),
    {
        Money { amount: self.amount + other.amount, currency: self.currency }
    }
}

impl vstd::std_specs::ops::AddSpecImpl for Money {
    open spec fn obeys_add_spec() -> bool {
        true
    }

    open spec fn add_req(self, other: Money) -> bool {
        &&& self.unit() == other.unit()
        &&& i64::MIN <= self.hundredths() + other.hundredths() <= i64::MAX
    }

    open spec fn add_spec(self, other: Money) -> Money {
        Money::of(self.hundredths() + other.hundredths(), self.unit())
    }
}

impl core::ops::Sub for Money {
    type Output = Money;

    fn sub(self, other: Money) -> (difference: Money)
        ensures
            difference.hundredths() == self.hundredths() - other.hundredths(),
            difference.unit() == self.unit(),
    {
        Money { amount: self.amount - other.amount, currency: self.currency }
    }
}

impl vstd::std_specs::ops::SubSpecImpl for Money {
    open spec fn obeys_sub_spec() -> bool {
        true
    }

    open spec fn sub_req(self, other: Money) -> bool {
        &&& self.unit() == other.unit()
        &&& i64::MIN <= self.hundredths() - other.hundredths() <= i64::MAX
    }

    open spec fn sub_spec(self, other: Money) -> Money {
        Money::of(self.hundredths() - other.hundredths(), self.unit())
    }
}

} // verus!
