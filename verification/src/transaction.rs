//! Payments between parties, as they are handed to a ledger and as a
//! settlement hands them back.

use vstd::prelude::*;
use vstd::string::StringExecFns;
use crate::money::{Currency, Money};
use crate::text::{join_names, joined};

verus! {

/// What a [`Transaction`] holds.
pub struct TransactionView {
    pub debtor: Seq<char>,
    pub creditor: Seq<char>,
    pub amount: Money,
}

/// One party, the debtor, pays another, the creditor, an amount above zero.
#[derive(Debug, PartialEq, Eq, PartialOrd, Ord)]
pub struct Transaction {
    debtor: String,
    creditor: String,
    amount: Money,
}

/// The amount that was refused when a transaction was made.
#[derive(Debug)]
pub struct ParseAmountError {
    amount: Money,
}

impl ParseAmountError {
    /// The amount that was refused.
    pub closed spec fn refused(&self) -> Money {
        self.amount
    }

    /// The amount that was refused.
    pub fn amount(&self) -> (amount: Money)
        ensures
            amount == self.refused(),
    {
        self.amount
    }

    /// What went wrong, as text.
    pub open spec fn text(&self) -> Seq<char> {
        "Transaction amount "@ + self.refused().text() + " is less than or equal to 0"@
    }

    /// What went wrong, as text.
    pub fn to_text(&self) -> (text: String)
        ensures
            text@ == self.text(),
    {
        let mut text = String::from_str("Transaction amount ");
        text.append(self.amount.to_text().as_str());
        text.append(" is less than or equal to 0");
        text
    }
}

impl TransactionView {
    /// The payment as text: who owes whom how much.
    pub open spec fn text(self) -> Seq<char> {
        self.debtor + " owes "@ + self.creditor + " "@ + self.amount.text()
    }
}

impl MultiPartyView {
    /// The payment as text: who owes how much to whom.
    pub open spec fn text(self) -> Seq<char> {
        joined(self.debtors) + " owes "@ + self.amount.text() + " to "@ + joined(self.creditors)
    }
}

impl View for Transaction {
    type V = TransactionView;

    closed spec fn view(&self) -> TransactionView {
        TransactionView { debtor: self.debtor@, creditor: self.creditor@, amount: self.amount }
    }
}

impl Transaction {
    /// A transaction always holds an amount above zero.
    #[verifier::type_invariant]
    spec fn holds_amount_above_zero(&self) -> bool {
        self.amount.hundredths() > 0
    }

    /// A payment of `amount` from `debtor` to `creditor`. Refused where
    /// `amount` is not above zero.
    pub fn new(debtor: String, creditor: String, amount: Money) -> (made: Result<
        Transaction,
        ParseAmountError,
    >)
        ensures
            made is Ok <==> amount.hundredths() > 0,
            made matches Ok(t) ==> t@ == (TransactionView {
                debtor: debtor@,
                creditor: creditor@,
                amount,
            }),
            made matches Err(e) ==> e.refused() == amount,
    {
        if !amount.is_positive() {
            return Err(ParseAmountError { amount });
        }
        Ok(Transaction { debtor, creditor, amount })
    }

    /// A payment from `debtor` to `creditor` of a whole number of units:
    /// `amount` holds the number and the code of the currency. Refused
    /// where the number is not above zero.
    pub fn from_tuple(debtor: String, creditor: String, amount: (i32, &str)) -> (made: Result<
        Transaction,
        ParseAmountError,
    >)
        requires
            Currency::is_code(amount.1@),
        ensures
            made is Ok <==> amount.0 > 0,
            made matches Ok(t) ==> t@.debtor == debtor@ && t@.creditor == creditor@
                && t@.amount.hundredths() == 100 * amount.0 && t@.amount.unit().code()
                == amount.1@,
            made matches Err(e) ==> e.refused().hundredths() == 100 * amount.0
                && e.refused().unit().code() == amount.1@,
    {
        let (value, code) = amount;
        let currency = Currency::find(code).unwrap();
        let hundredths: i64 = 100 * (value as i64);
        Transaction::new(debtor, creditor, Money::new(hundredths, currency))
    }

    /// The payment as text: who owes whom how much.
    pub fn to_text(&self) -> (text: String)
        ensures
            text@ == self@.text(),
    {
        let mut text = self.debtor.clone();
        text.append(" owes ");
        text.append(self.creditor.as_str());
        text.append(" ");
        text.append(self.amount.to_text().as_str());
        text
    }

    /// The party that pays.
    pub fn debtor(&self) -> (name: &String)
        ensures
            name@ == self@.debtor,
    {
        &self.debtor
    }

    /// The party that is paid.
    pub fn creditor(&self) -> (name: &String)
        ensures
            name@ == self@.creditor,
    {
        &self.creditor
    }

    /// The amount that is paid, which is above zero.
    pub fn amount(&self) -> (amount: Money)
        ensures
            amount == self@.amount,
            amount.hundredths() > 0,
    {
        proof {
            use_type_invariant(self);
        }
        self.amount
    }
}

/// The names that `names` holds.
pub open spec fn names_of(names: Seq<String>) -> Seq<Seq<char>> {
    Seq::new(names.len(), |i: int| names[i]@)
}

/// What a [`MultiPartyTransaction`] holds.
pub struct MultiPartyView {
    pub debtors: Seq<Seq<char>>,
    pub creditors: Seq<Seq<char>>,
    pub amount: Money,
}

/// One payment that several parties, the debtors, make together to several
/// parties, the creditors. The amount is not below zero.
#[derive(Debug, PartialEq, Eq, PartialOrd, Ord)]
pub struct MultiPartyTransaction {
    debtors: Vec<String>,
    creditors: Vec<String>,
    amount: Money,
}

impl View for MultiPartyTransaction {
    type V = MultiPartyView;

    closed spec fn view(&self) -> MultiPartyView {
        MultiPartyView {
            debtors: names_of(self.debtors@),
            creditors: names_of(self.creditors@),
            amount: self.amount,
        }
    }
}

impl MultiPartyTransaction {
    /// A payment of several parties never holds an amount below zero.
    #[verifier::type_invariant]
    spec fn holds_no_amount_below_zero(&self) -> bool {
        self.amount.hundredths() >= 0
    }

    /// A payment of `amount` from `debtors` to `creditors`. Refused where
    /// `amount` is below zero.
    pub fn new(debtors: Vec<String>, creditors: Vec<String>, amount: Money) -> (made: Result<
        MultiPartyTransaction,
        ParseAmountError,
    >)
        ensures
            made is Ok <==> amount.hundredths() >= 0,
            made matches Ok(t) ==> t@ == (MultiPartyView {
                debtors: names_of(debtors@),
                creditors: names_of(creditors@),
                amount,
            }),
            made matches Err(e) ==> e.refused() == amount,
    {
        if amount.is_negative() {
            return Err(ParseAmountError { amount });
        }
        Ok(MultiPartyTransaction { debtors, creditors, amount })
    }

    /// The payment as text: who owes how much to whom.
    pub fn to_text(&self) -> (text: String)
        ensures
            text@ == self@.text(),
    {
        let mut text = join_names(&self.debtors);
        text.append(" owes ");
        text.append(self.amount.to_text().as_str());
        text.append(" to ");
        text.append(join_names(&self.creditors).as_str());
        text
    }

    /// The parties that pay.
    pub fn debtors(&self) -> (names: &Vec<String>)
        ensures
            names_of(names@) == self@.debtors,
    {
        &self.debtors
    }

    /// The parties that are paid.
    pub fn creditors(&self) -> (names: &Vec<String>)
        ensures
            names_of(names@) == self@.creditors,
    {
        &self.creditors
    }

    /// The amount that is paid, which is not below zero.
    pub fn amount(&self) -> (amount: Money)
        ensures
            amount == self@.amount,
            amount.hundredths() >= 0,
    {
        proof {
            use_type_invariant(self);
        }
        self.amount
    }
}

} // verus!
