//! Track debts between parties and settle them with few payments.
//!
//! A [`Ledger`] keeps one net balance per party. Payments that were made
//! are added as [`Transaction`]s or [`MultiPartyTransaction`]s; `settle`
//! then names the payments that bring every balance back to zero. It looks
//! for groups of parties whose balances cancel out, smallest groups first,
//! and clears each group among its own members; what is left is cleared by
//! letting every debtor pay the creditors in turn. The result is not always
//! the smallest set of payments there is, but it never takes more payments
//! than one less than there are balances to clear.
//!
//! Amounts are [`Money`]: an exact fixed-point number with two decimal
//! places and a currency.
//!
//! A few calls into other crates are taken on trust, each behind one small
//! function that says what is claimed of it: `rust_decimal` reads a decimal
//! number from text and writes one as text, and `itertools` lists the
//! groups of a given size, one after the other. Everything else is proved.
//!
//! The modules, from the ground up:
//!
//! - `sums`: sums and counts over sequences of integers;
//! - `allocation`: what it means to split an amount by ratios;
//! - `parsing` and `text`: amounts read from text and written as text;
//! - `money`: [`Currency`] and [`Money`];
//! - `transaction`: [`Transaction`] and [`MultiPartyTransaction`];
//! - `combinations`: the groups that can be picked from a row of places;
//! - `settlement`: what settling a list of balances means, and what
//!   follows from it;
//! - `groups`: what clearing one group does;
//! - `engine`: the settlement carried out on a vector of balances;
//! - `ledger`: the [`Ledger`].

pub mod allocation;
pub mod combinations;
pub mod engine;
pub mod groups;
pub mod ledger;
pub mod money;
pub mod parsing;
pub mod settlement;
pub mod sums;
pub mod text;
pub mod transaction;

pub use ledger::Ledger;
pub use money::Currency;
pub use money::Money;
pub use transaction::MultiPartyTransaction;
pub use transaction::ParseAmountError;
pub use transaction::Transaction;
