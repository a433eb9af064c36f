//! The ledger: one net balance for each party.
//!
//! A balance below zero is what the party owes, one above zero is what it
//! is owed. The balances of a ledger always add up to zero. All amounts of
//! a ledger are in US dollars.

use vstd::prelude::*;
use crate::allocation::{law_shares_sum, shares};
use crate::engine::{amounts, settle_balances, transfers};
use crate::money::{Currency, Money};
use crate::settlement::{is_payment, law_settle, paid, received, settle, Transfer};
use crate::sums::{
    all_zero, lemma_sum_first, lemma_sum_of_zeros, lemma_sum_update, nonzero_count, spare, sum,
};
use crate::transaction::{
    names_of, MultiPartyTransaction, MultiPartyView, Transaction, TransactionView,
};

verus! {

/// What a [`Ledger`] holds: the parties in the order in which they were
/// first named, and the balance of each, in hundredths.
pub struct LedgerView {
    pub parties: Seq<Seq<char>>,
    pub balances: Seq<int>,
}

impl LedgerView {
    /// The ledger without any party.
    pub open spec fn empty() -> LedgerView {
        LedgerView { parties: Seq::empty(), balances: Seq::empty() }
    }

    /// Whether there is one balance for each party, and no party twice.
    pub open spec fn shaped(self) -> bool {
        &&& self.parties.len() == self.balances.len()
        &&& forall|i: int, j: int|
            0 <= i < j < self.parties.len() ==> self.parties[i] != self.parties[j]
    }

    /// Whether every balance fits in 64 bits.
    pub open spec fn fits(self) -> bool {
        forall|i: int|
            0 <= i < self.balances.len() ==> i64::MIN <= #[trigger] self.balances[i] <= i64::MAX
    }

    /// The sum of all balances.
    pub open spec fn total(self) -> int {
        sum(self.balances)
    }

    /// The first place at or behind `from` where `name` stands, or the
    /// number of parties where it stands nowhere.
    pub open spec fn place_from(self, name: Seq<char>, from: int) -> int
        decreases self.parties.len() - from,
    {
        if from >= self.parties.len() {
            self.parties.len() as int
        } else if self.parties[from] == name {
            from
        } else {
            self.place_from(name, from + 1)
        }
    }

    /// The place where `name` stands, or the number of parties where it
    /// stands nowhere.
    pub open spec fn place_of(self, name: Seq<char>) -> int {
        self.place_from(name, 0)
    }

    /// The balance of `name`: zero for a party that was never named.
    pub open spec fn balance_of(self, name: Seq<char>) -> int {
        if self.place_of(name) < self.balances.len() {
            self.balances[self.place_of(name)]
        } else {
            0
        }
    }

    /// Adds `change` to the balance of `name`. A party that was never
    /// named comes in behind the others.
    pub open spec fn post(self, name: Seq<char>, change: int) -> LedgerView {
        let at = self.place_of(name);
        if at < self.balances.len() {
            LedgerView {
                parties: self.parties,
                balances: self.balances.update(at, self.balances[at] + change),
            }
        } else {
            LedgerView { parties: self.parties.push(name), balances: self.balances.push(change) }
        }
    }

    /// Whether the balance of `name` still fits in 64 bits with `change`
    /// added to it.
    pub open spec fn can_post(self, name: Seq<char>, change: int) -> bool {
        i64::MIN <= self.balance_of(name) + change <= i64::MAX
    }

    /// What a single payment does: it takes the amount off the balance of
    /// the debtor and adds it to the balance of the creditor.
    pub open spec fn add(self, payment: TransactionView) -> LedgerView {
        self.post(payment.debtor, -payment.amount.hundredths()).post(
            payment.creditor,
            payment.amount.hundredths(),
        )
    }

    /// Whether a single payment can be added: it is in dollars, and the
    /// two balances it changes still fit in 64 bits.
    pub open spec fn can_add(self, payment: TransactionView) -> bool {
        &&& payment.amount.unit() == Currency::USD
        &&& self.can_post(payment.debtor, -payment.amount.hundredths())
        &&& self.post(payment.debtor, -payment.amount.hundredths()).can_post(
            payment.creditor,
            payment.amount.hundredths(),
        )
    }

    /// An amount with the sign it is posted with: as it is for a credit,
    /// turned round for a debit.
    pub open spec fn signed(amount: int, credit: bool) -> int {
        if credit {
            amount
        } else {
            -amount
        }
    }

    /// What a share is in hundredths, with the sign it is posted with.
    pub open spec fn share_change(share: int, credit: bool) -> int {
        LedgerView::signed(100 * share, credit)
    }

    /// Posts one share to each of `names`, as a credit or as a debit. The
    /// shares are handed out from the last to the first: the first name
    /// gets the last share.
    pub open spec fn post_shares(
        self,
        names: Seq<Seq<char>>,
        shares: Seq<int>,
        credit: bool,
    ) -> LedgerView
        decreases names.len(),
    {
        if names.len() == 0 {
            self
        } else {
            self.post_shares(names.drop_last(), shares.drop_first(), credit).post(
                names.last(),
                LedgerView::share_change(shares.first(), credit),
            )
        }
    }

    /// Whether every balance still fits in 64 bits while the shares are
    /// posted.
    pub open spec fn can_post_shares(
        self,
        names: Seq<Seq<char>>,
        shares: Seq<int>,
        credit: bool,
    ) -> bool
        decreases names.len(),
    {
        if names.len() == 0 {
            true
        } else {
            &&& self.can_post_shares(names.drop_last(), shares.drop_first(), credit)
            &&& self.post_shares(names.drop_last(), shares.drop_first(), credit).can_post(
                names.last(),
                LedgerView::share_change(shares.first(), credit),
            )
        }
    }

    /// The shares of the debtors of a payment, in whole units.
    pub open spec fn debit_shares(payment: MultiPartyView) -> Seq<int> {
        shares(payment.amount.units(), Money::even_ratios(payment.debtors.len() as int))
    }

    /// The shares of the creditors of a payment, in whole units.
    pub open spec fn credit_shares(payment: MultiPartyView) -> Seq<int> {
        shares(payment.amount.units(), Money::even_ratios(payment.creditors.len() as int))
    }

    /// What a payment of several parties does: the amount is split evenly
    /// among the debtors, and each share is taken off the balance of its
    /// debtor; it is split evenly among the creditors, and each share is
    /// added to the balance of its creditor.
    pub open spec fn add_multi(self, payment: MultiPartyView) -> LedgerView {
        self.post_shares(payment.debtors, LedgerView::debit_shares(payment), false).post_shares(
            payment.creditors,
            LedgerView::credit_shares(payment),
            true,
        )
    }

    /// Whether a payment of several parties can be split: it is a whole
    /// number of units, and there is at least one debtor and one creditor,
    /// and no more of either than a 32-bit integer counts.
    pub open spec fn splits(payment: MultiPartyView) -> bool {
        &&& payment.amount.is_whole()
        &&& 0 < payment.debtors.len() <= i32::MAX
        &&& 0 < payment.creditors.len() <= i32::MAX
    }

    /// Whether a payment of several parties can be added: it is in
    /// dollars, it can be split, and every balance still fits in 64 bits
    /// while the shares are posted.
    pub open spec fn can_add_multi(self, payment: MultiPartyView) -> bool {
        &&& payment.amount.unit() == Currency::USD
        &&& LedgerView::splits(payment)
        &&& self.can_post_shares(payment.debtors, LedgerView::debit_shares(payment), false)
        &&& self.post_shares(
            payment.debtors,
            LedgerView::debit_shares(payment),
            false,
        ).can_post_shares(payment.creditors, LedgerView::credit_shares(payment), true)
    }

    /// What adding `entry` does.
    pub open spec fn apply(self, entry: Entry) -> LedgerView {
        match entry {
            Entry::Single(payment) => self.add(payment),
            Entry::Multi(payment) => self.add_multi(payment),
        }
    }

    /// What adding `entries` does, one after the other.
    pub open spec fn apply_all(self, entries: Seq<Entry>) -> LedgerView
        decreases entries.len(),
    {
        if entries.len() == 0 {
            self
        } else {
            self.apply_all(entries.drop_last()).apply(entries.last())
        }
    }

    /// The place of a name lies between `from` and the number of parties;
    /// the name stands there and nowhere before it.
    pub proof fn lemma_place_from(self, name: Seq<char>, from: int)
        requires
            0 <= from <= self.parties.len(),
        ensures
            from <= self.place_from(name, from) <= self.parties.len(),
            self.place_from(name, from) < self.parties.len() ==> self.parties[self.place_from(
                name,
                from,
            )] == name,
            forall|i: int| from <= i < self.place_from(name, from) ==> self.parties[i] != name,
        decreases self.parties.len() - from,
    {
        if from < self.parties.len() && self.parties[from] != name {
            self.lemma_place_from(name, from + 1);
        }
    }

    /// Posting keeps the shape of a ledger and the parties it has, changes
    /// the balance of the one party by what was posted, and the sum of all
    /// balances by the same.
    pub proof fn lemma_post(self, name: Seq<char>, change: int)
        requires
            self.shaped(),
        ensures
            self.post(name, change).shaped(),
            self.post(name, change).total() == self.total() + change,
            self.post(name, change).balance_of(name) == self.balance_of(name) + change,
            forall|other: Seq<char>|
                other != name ==> #[trigger] self.post(name, change).balance_of(other)
                    == self.balance_of(other),
            self.fits() && self.can_post(name, change) ==> self.post(name, change).fits(),
            self.parties.len() <= self.post(name, change).parties.len(),
            forall|i: int|
                0 <= i < self.parties.len() ==> #[trigger] self.post(name, change).parties[i]
                    == self.parties[i],
    {
        let after = self.post(name, change);
        let at = self.place_of(name);
        self.lemma_place_from(name, 0);
        after.lemma_place_from(name, 0);
        if at < self.balances.len() {
            lemma_sum_update(self.balances, at, self.balances[at] + change);
        } else {
            assert(after.balances.drop_last() =~= self.balances);
            assert(after.place_of(name) == at) by {
                assert(after.parties[at] == name);
                assert forall|i: int| 0 <= i < at implies after.parties[i] != name by {
                    assert(after.parties[i] == self.parties[i]);
                }
            }
        }
        assert forall|other: Seq<char>| other != name implies #[trigger] after.balance_of(other)
            == self.balance_of(other) by {
            self.lemma_place_from(other, 0);
            after.lemma_place_from(other, 0);
            let was = self.place_of(other);
            let is = after.place_of(other);
            if was < self.parties.len() {
                assert(after.parties[was] == other);
                if is < was {
                    assert(self.parties[is] == after.parties[is]);
                }
            } else {
                if is < after.parties.len() {
                    if is < self.parties.len() {
                        assert(self.parties[is] == after.parties[is]);
                    }
                }
            }
        }
    }

    /// A single payment keeps the shape of a ledger and the sum of its
    /// balances.
    pub proof fn lemma_add(self, payment: TransactionView)
        requires
            self.shaped(),
        ensures
            self.add(payment).shaped(),
            self.add(payment).total() == self.total(),
            self.fits() && self.can_add(payment) ==> self.add(payment).fits(),
    {
        let change = payment.amount.hundredths();
        self.lemma_post(payment.debtor, -change);
        self.post(payment.debtor, -change).lemma_post(payment.creditor, change);
    }

    /// Posting shares keeps the shape of a ledger, and changes the sum of
    /// its balances by the sum of the shares.
    pub proof fn lemma_post_shares(self, names: Seq<Seq<char>>, shares: Seq<int>, credit: bool)
        requires
            self.shaped(),
            names.len() == shares.len(),
        ensures
            self.post_shares(names, shares, credit).shaped(),
            self.post_shares(names, shares, credit).total() == self.total()
                + LedgerView::share_change(sum(shares), credit),
            self.fits() && self.can_post_shares(names, shares, credit) ==> self.post_shares(
                names,
                shares,
                credit,
            ).fits(),
        decreases names.len(),
    {
        if names.len() > 0 {
            let before = self.post_shares(names.drop_last(), shares.drop_first(), credit);
            self.lemma_post_shares(names.drop_last(), shares.drop_first(), credit);
            before.lemma_post(names.last(), LedgerView::share_change(shares.first(), credit));
            lemma_sum_first(shares);
        }
    }

    /// Shares that can all be posted can be posted up to any point.
    pub proof fn lemma_can_post_some(
        self,
        names: Seq<Seq<char>>,
        shares: Seq<int>,
        credit: bool,
        count: int,
    )
        requires
            names.len() == shares.len(),
            self.can_post_shares(names, shares, credit),
            0 <= count <= names.len(),
        ensures
            self.can_post_shares(names.take(count), shares.skip(shares.len() - count), credit),
        decreases names.len() - count,
    {
        if count == names.len() {
            assert(names.take(count) =~= names);
            assert(shares.skip(0) =~= shares);
        } else {
            self.lemma_can_post_some(names.drop_last(), shares.drop_first(), credit, count);
            assert(names.drop_last().take(count) =~= names.take(count));
            assert(shares.drop_first().skip(shares.len() - 1 - count) =~= shares.skip(
                shares.len() - count,
            ));
        }
    }

    /// A payment of several parties that can be split keeps the shape of
    /// a ledger and the sum of its balances: rounding loses nothing.
    pub proof fn lemma_add_multi(self, payment: MultiPartyView)
        requires
            self.shaped(),
            LedgerView::splits(payment),
        ensures
            self.add_multi(payment).shaped(),
            self.add_multi(payment).total() == self.total(),
            self.fits() && self.can_add_multi(payment) ==> self.add_multi(payment).fits(),
    {
        let units = payment.amount.units();
        let debits = LedgerView::debit_shares(payment);
        let credits = LedgerView::credit_shares(payment);
        law_shares_sum(units, Money::even_ratios(payment.debtors.len() as int));
        law_shares_sum(units, Money::even_ratios(payment.creditors.len() as int));
        self.lemma_post_shares(payment.debtors, debits, false);
        self.post_shares(payment.debtors, debits, false).lemma_post_shares(
            payment.creditors,
            credits,
            true,
        );
    }
}

/// Something that can be added to a ledger.
pub enum Entry {
    Single(TransactionView),
    Multi(MultiPartyView),
}

impl Entry {
    /// Whether the entry can be added: a payment of several parties must
    /// be one that can be split.
    pub open spec fn valid(self) -> bool {
        match self {
            Entry::Single(payment) => true,
            Entry::Multi(payment) => LedgerView::splits(payment),
        }
    }
}

/// Conservation: whatever payments are added to an empty ledger, one after
/// the other, the balances keep adding up to zero.
pub proof fn law_conservation(entries: Seq<Entry>)
    requires
        forall|i: int| 0 <= i < entries.len() ==> (#[trigger] entries[i]).valid(),
    ensures
        LedgerView::empty().apply_all(entries).shaped(),
        LedgerView::empty().apply_all(entries).total() == 0,
    decreases entries.len(),
{
    if entries.len() > 0 {
        let front = entries.drop_last();
        assert forall|i: int| 0 <= i < front.len() implies (#[trigger] front[i]).valid() by {
            assert(front[i] == entries[i]);
        }
        law_conservation(front);
        let before = LedgerView::empty().apply_all(front);
        match entries.last() {
            Entry::Single(payment) => {
                before.lemma_add(payment);
            },
            Entry::Multi(payment) => {
                before.lemma_add_multi(payment);
            },
        }
    }
}

/// The amounts of the entries of a ledger, in hundredths.
pub open spec fn entry_amounts(entries: Seq<(String, Money)>) -> Seq<int> {
    Seq::new(entries.len(), |i: int| entries[i].1.hundredths())
}

/// The payment between parties that a payment between places stands for.
pub open spec fn payment_of(parties: Seq<Seq<char>>, transfer: Transfer) -> TransactionView {
    TransactionView {
        debtor: parties[transfer.debtor],
        creditor: parties[transfer.creditor],
        amount: Money::of(transfer.amount, Currency::USD),
    }
}

/// The payments between parties that payments between places stand for.
pub open spec fn payments_of(parties: Seq<Seq<char>>, transfers: Seq<Transfer>) -> Seq<
    TransactionView,
> {
    Seq::new(transfers.len(), |i: int| payment_of(parties, transfers[i]))
}

/// What the transactions hold.
pub open spec fn views(transactions: Seq<Transaction>) -> Seq<TransactionView> {
    Seq::new(transactions.len(), |i: int| transactions[i]@)
}

/// What `name` pays out in `payments`, in hundredths.
pub open spec fn paid_out(payments: Seq<TransactionView>, name: Seq<char>) -> int
    decreases payments.len(),
{
    if payments.len() == 0 {
        0
    } else {
        paid_out(payments.drop_last(), name) + if payments.last().debtor == name {
            payments.last().amount.hundredths()
        } else {
            0
        }
    }
}

/// What `name` takes in from `payments`, in hundredths.
pub open spec fn taken_in(payments: Seq<TransactionView>, name: Seq<char>) -> int
    decreases payments.len(),
{
    if payments.len() == 0 {
        0
    } else {
        taken_in(payments.drop_last(), name) + if payments.last().creditor == name {
            payments.last().amount.hundredths()
        } else {
            0
        }
    }
}

/// Whether every amount of `transfers` fits in 64 bits.
pub open spec fn amounts_fit(transfers: Seq<Transfer>) -> bool {
    forall|k: int|
        0 <= k < transfers.len() ==> i64::MIN <= (#[trigger] transfers[k]).amount <= i64::MAX
}

/// What a party pays out and takes in is what its place pays and
/// receives; a name that is no party pays and takes nothing.
pub proof fn lemma_flows_by_name(ledger: LedgerView, transfers: Seq<Transfer>, name: Seq<char>)
    requires
        ledger.shaped(),
        amounts_fit(transfers),
        forall|k: int|
            0 <= k < transfers.len() ==> is_payment(
                #[trigger] transfers[k],
                ledger.parties.len() as int,
            ),
    ensures
        ledger.place_of(name) < ledger.parties.len() ==> paid_out(
            payments_of(ledger.parties, transfers),
            name,
        ) == paid(transfers, ledger.place_of(name)) && taken_in(
            payments_of(ledger.parties, transfers),
            name,
        ) == received(transfers, ledger.place_of(name)),
        ledger.place_of(name) >= ledger.parties.len() ==> paid_out(
            payments_of(ledger.parties, transfers),
            name,
        ) == 0 && taken_in(payments_of(ledger.parties, transfers), name) == 0,
    decreases transfers.len(),
{
    let payments = payments_of(ledger.parties, transfers);
    ledger.lemma_place_from(name, 0);
    if transfers.len() > 0 {
        let front = transfers.drop_last();
        assert forall|k: int| 0 <= k < front.len() implies is_payment(
            #[trigger] front[k],
            ledger.parties.len() as int,
        ) by {
            assert(front[k] == transfers[k]);
        }
        assert(amounts_fit(front)) by {
            assert forall|k: int| 0 <= k < front.len() implies i64::MIN <= (
            #[trigger] front[k]).amount <= i64::MAX by {
                assert(front[k] == transfers[k]);
            }
        }
        lemma_flows_by_name(ledger, front, name);
        assert(payments.drop_last() =~= payments_of(ledger.parties, front));
        let last = transfers.last();
        Money::lemma_of(last.amount, Currency::USD);
        let at = ledger.place_of(name);
        if at < ledger.parties.len() {
            if last.debtor != at {
                assert(ledger.parties[last.debtor] != ledger.parties[at]);
            }
            if last.creditor != at {
                assert(ledger.parties[last.creditor] != ledger.parties[at]);
            }
        } else {
            assert(ledger.parties[last.debtor] != name);
        }
    }
}

/// The balances of all parties.
#[derive(Debug)]
pub struct Ledger {
    names: Vec<String>,
    balances: Vec<i64>,
}

impl View for Ledger {
    type V = LedgerView;

    closed spec fn view(&self) -> LedgerView {
        LedgerView { parties: names_of(self.names@), balances: amounts(self.balances@) }
    }
}

impl Ledger {
    /// Whether the ledger is in order: one balance for each party, no party
    /// twice, and balances that add up to zero.
    pub open spec fn wf(&self) -> bool {
        &&& self@.shaped()
        &&& self@.fits()
        &&& self@.total() == 0
    }

    /// A ledger without any party.
    pub fn new() -> (ledger: Ledger)
        ensures
            ledger.wf(),
            ledger@ == LedgerView::empty(),
    {
        let ledger = Ledger { names: Vec::new(), balances: Vec::new() };
        assert(ledger@.parties =~= Seq::<Seq<char>>::empty());
        assert(ledger@.balances =~= Seq::<int>::empty());
        ledger
    }

    /// The place where `name` stands, or the number of parties where it
    /// stands nowhere.
    fn find(&self, name: &String) -> (at: usize)
        ensures
            at == self@.place_of(name@),
            at <= self.names@.len(),
    {
        let mut i: usize = 0;
        while i < self.names.len()
            invariant
                i <= self.names@.len(),
                self@.place_of(name@) == self@.place_from(name@, i as int),
            decreases self.names@.len() - i,
        {
            if self.names[i] == *name {
                return i;
            }
            i += 1;
        }
        i
    }

    /// Adds `amount` to the balance of `name` where `credit` is set, and
    /// takes it off where it is not.
    fn post(&mut self, name: &String, amount: i64, credit: bool)
        requires
            old(self)@.shaped(),
            old(self)@.fits(),
            old(self)@.can_post(name@, LedgerView::signed(amount as int, credit)),
        ensures
            final(self)@ == old(self)@.post(name@, LedgerView::signed(amount as int, credit)),
            final(self)@.shaped(),
            final(self)@.fits(),
    {
        let ghost before = self@;
        let ghost change = LedgerView::signed(amount as int, credit);
        proof {
            before.lemma_post(name@, change);
        }
        let at = self.find(name);
        if at < self.names.len() {
            let balance = self.balances[at];
            let next: i64 = if credit {
                balance + amount
            } else {
                balance - amount
            };
            self.balances.set(at, next);
            assert(self@.balances =~= before.balances.update(at as int, before.balances[at as int]
                + change));
        } else {
            let next: i64 = if credit {
                amount
            } else {
                0 - amount
            };
            self.names.push(name.clone());
            self.balances.push(next);
            assert(self@.parties =~= before.parties.push(name@));
            assert(self@.balances =~= before.balances.push(change));
        }
    }

    /// A copy of this ledger.
    fn copy(&self) -> (copy: Ledger)
        requires
            self@.shaped(),
        ensures
            copy@ == self@,
    {
        let mut names: Vec<String> = Vec::new();
        let mut balances: Vec<i64> = Vec::new();
        let mut i: usize = 0;
        while i < self.names.len()
            invariant
                i <= self.names@.len(),
                self.names@.len() == self.balances@.len(),
                names@.len() == i,
                balances@.len() == i,
                forall|k: int| 0 <= k < i ==> (#[trigger] names@[k])@ == self.names@[k]@,
                forall|k: int| 0 <= k < i ==> #[trigger] balances@[k] == self.balances@[k],
            decreases self.names@.len() - i,
        {
            names.push(self.names[i].clone());
            balances.push(self.balances[i]);
            i += 1;
        }
        let copy = Ledger { names, balances };
        assert(copy@.parties =~= self@.parties);
        assert(copy@.balances =~= self@.balances);
        copy
    }

    /// Posts as `post` does, where the balance still fits in 64 bits, and
    /// says whether it did.
    fn try_post(&mut self, name: &String, amount: i64, credit: bool) -> (done: bool)
        requires
            old(self)@.shaped(),
            old(self)@.fits(),
        ensures
            done == old(self)@.can_post(name@, LedgerView::signed(amount as int, credit)),
            done ==> final(self)@ == old(self)@.post(
                name@,
                LedgerView::signed(amount as int, credit),
            ),
            !done ==> final(self)@ == old(self)@,
            final(self)@.shaped(),
            final(self)@.fits(),
    {
        let at = self.find(name);
        let balance: i64 = if at < self.names.len() {
            self.balances[at]
        } else {
            0
        };
        let next = if credit {
            balance.checked_add(amount)
        } else {
            balance.checked_sub(amount)
        };
        if next.is_some() {
            self.post(name, amount, credit);
            true
        } else {
            false
        }
    }

    /// Posts one share to each of `names`, as long as every balance still
    /// fits in 64 bits, and says whether all of them did. The first name
    /// gets the last share.
    fn try_post_all(
        &mut self,
        names: &Vec<String>,
        parts: Vec<Money>,
        credit: bool,
        Ghost(shares): Ghost<Seq<int>>,
    ) -> (done: bool)
        requires
            old(self)@.shaped(),
            old(self)@.fits(),
            parts@.len() == names@.len(),
            shares.len() == names@.len(),
            forall|i: int|
                0 <= i < parts@.len() ==> (#[trigger] parts@[i]).hundredths() == 100 * shares[i],
        ensures
            done == old(self)@.can_post_shares(names_of(names@), shares, credit),
            done ==> final(self)@ == old(self)@.post_shares(names_of(names@), shares, credit),
            final(self)@.shaped(),
            final(self)@.fits(),
    {
        let ghost before = self@;
        let ghost row = names_of(names@);
        let n = names.len();
        let mut parts = parts;
        let mut i: usize = 0;
        while i < n
            invariant
                i <= n,
                n == names@.len(),
                row == names_of(names@),
                shares.len() == n,
                parts@.len() == n - i,
                forall|k: int|
                    0 <= k < parts@.len() ==> (#[trigger] parts@[k]).hundredths() == 100
                        * shares[k],
                before == old(self)@,
                before.shaped(),
                before.can_post_shares(row.take(i as int), shares.skip(n - i), credit),
                self@ == before.post_shares(row.take(i as int), shares.skip(n - i), credit),
                self@.shaped(),
                self@.fits(),
            decreases n - i,
        {
            proof {
                assert(row.take(i + 1).drop_last() =~= row.take(i as int));
                assert(shares.skip(n - i - 1).drop_first() =~= shares.skip(n - i));
            }
            let part = parts.pop().unwrap();
            let ghost change = LedgerView::share_change(shares[n - i - 1], credit);
            assert(change == LedgerView::signed(part.hundredths(), credit));
            if !self.try_post(&names[i], part.amount(), credit) {
                proof {
                    if before.can_post_shares(row, shares, credit) {
                        before.lemma_can_post_some(row, shares, credit, i + 1);
                    }
                }
                return false;
            }
            i += 1;
        }
        proof {
            assert(row.take(n as int) =~= row);
            assert(shares.skip(0) =~= shares);
        }
        true
    }

    /// Whether `transaction` can be added: it is in dollars, and the two
    /// balances it changes still fit in 64 bits.
    pub fn accepts(&self, transaction: &Transaction) -> (ok: bool)
        requires
            self.wf(),
        ensures
            ok == self@.can_add(transaction@),
    {
        if transaction.amount().denomination() != Currency::USD {
            return false;
        }
        let amount = transaction.amount().amount();
        let mut scratch = self.copy();
        if !scratch.try_post(transaction.debtor(), amount, false) {
            return false;
        }
        scratch.try_post(transaction.creditor(), amount, true)
    }

    /// Whether `transaction` can be added: it is in dollars, its amount is
    /// a whole number of units, it has at least one debtor and one
    /// creditor, and every balance still fits in 64 bits while the shares
    /// are posted.
    pub fn accepts_multi_party(&self, transaction: &MultiPartyTransaction) -> (ok: bool)
        requires
            self.wf(),
        ensures
            ok == self@.can_add_multi(transaction@),
    {
        let amount = transaction.amount();
        let debtors = transaction.debtors();
        let creditors = transaction.creditors();
        if amount.denomination() != Currency::USD {
            return false;
        }
        if debtors.len() == 0 || debtors.len() > 0x7fff_ffff {
            return false;
        }
        if creditors.len() == 0 || creditors.len() > 0x7fff_ffff {
            return false;
        }
        let debt_shares = match amount.allocate_to(debtors.len() as i32) {
            Some(parts) => parts,
            None => {
                return false;
            },
        };
        let credit_shares = amount.allocate_to(creditors.len() as i32).unwrap();
        let ghost payment = transaction@;
        let ghost debits = LedgerView::debit_shares(payment);
        let ghost credits = LedgerView::credit_shares(payment);
        let mut scratch = self.copy();
        if !scratch.try_post_all(debtors, debt_shares, false, Ghost(debits)) {
            return false;
        }
        scratch.try_post_all(creditors, credit_shares, true, Ghost(credits))
    }

    /// Adds a payment: takes its amount off the balance of the debtor and
    /// adds it to the balance of the creditor. A party that was never named
    /// comes in behind the others.
    pub fn add_transaction(&mut self, transaction: Transaction)
        requires
            old(self).wf(),
            old(self)@.can_add(transaction@),
        ensures
            final(self).wf(),
            final(self)@ == old(self)@.add(transaction@),
            final(self)@ == old(self)@.apply(Entry::Single(transaction@)),
    {
        let amount = transaction.amount().amount();
        proof {
            self@.lemma_add(transaction@);
            self@.lemma_post(transaction@.debtor, -amount);
        }
        self.post(transaction.debtor(), amount, false);
        self.post(transaction.creditor(), amount, true);
    }

    /// Adds a payment of several parties: the amount is split evenly among
    /// the debtors, in whole units, and each share is taken off the balance
    /// of its debtor; it is split evenly among the creditors, and each
    /// share is added to the balance of its creditor. Where the amount does
    /// not divide, the units left over go one each to the last parties.
    pub fn add_multi_party_transaction(&mut self, transaction: MultiPartyTransaction)
        requires
            old(self).wf(),
            old(self)@.can_add_multi(transaction@),
        ensures
            final(self).wf(),
            final(self)@ == old(self)@.add_multi(transaction@),
            final(self)@ == old(self)@.apply(Entry::Multi(transaction@)),
    {
        let ghost payment = transaction@;
        let ghost debits = LedgerView::debit_shares(payment);
        let ghost credits = LedgerView::credit_shares(payment);
        proof {
            self@.lemma_add_multi(payment);
            self@.lemma_post_shares(payment.debtors, debits, false);
        }
        let amount = transaction.amount();
        let debtors = transaction.debtors();
        let creditors = transaction.creditors();
        let debt_shares = amount.allocate_to(debtors.len() as i32).unwrap();
        let debited = self.try_post_all(debtors, debt_shares, false, Ghost(debits));
        assert(debited);
        let credit_shares = amount.allocate_to(creditors.len() as i32).unwrap();
        let credited = self.try_post_all(creditors, credit_shares, true, Ghost(credits));
        assert(credited);
    }

    /// Finds the payments that clear all balances, and clears them: first
    /// among groups of parties whose balances cancel out, for each size of
    /// group from two up to `group_size`, then among all that are left.
    /// Returns the payments, oldest first. Every balance is zero afterwards;
    /// what a party pays out less what it takes in is what it owed.
    pub fn settle_upto(&mut self, group_size: usize) -> (payments: Vec<Transaction>)
        requires
            old(self).wf(),
        ensures
            final(self).wf(),
            final(self)@.parties == old(self)@.parties,
            all_zero(final(self)@.balances),
            views(payments@) == payments_of(
                old(self)@.parties,
                settle(old(self)@.balances, group_size as nat).payments,
            ),
            forall|k: int| 0 <= k < payments@.len() ==> (#[trigger] payments@[k])@.amount.hundredths() > 0,
            forall|name: Seq<char>|
                paid_out(views(payments@), name) - taken_in(views(payments@), name)
                    == -#[trigger] old(self)@.balance_of(name),
            payments@.len() <= spare(old(self)@.balances),
    {
        let ghost before = self@;
        let ghost plan = settle(before.balances, group_size as nat);
        proof {
            law_settle(before.balances, group_size as nat);
        }
        let made = settle_balances(&mut self.balances, group_size).unwrap();
        proof {
            lemma_sum_of_zeros(self@.balances);
            assert(amounts_fit(plan.payments)) by {
                assert forall|k: int| 0 <= k < plan.payments.len() implies i64::MIN <= (
                #[trigger] plan.payments[k]).amount <= i64::MAX by {
                    assert(plan.payments[k] == made@[k]@);
                }
            }
        }
        let mut payments: Vec<Transaction> = Vec::new();
        let mut i: usize = 0;
        while i < made.len()
            invariant
                i <= made@.len(),
                transfers(made@) == plan.payments,
                self@.parties == before.parties,
                before.shaped(),
                forall|k: int|
                    0 <= k < plan.payments.len() ==> is_payment(
                        #[trigger] plan.payments[k],
                        before.parties.len() as int,
                    ),
                payments@.len() == i,
                forall|k: int|
                    0 <= k < i ==> (#[trigger] payments@[k])@ == payment_of(
                        before.parties,
                        plan.payments[k],
                    ),
                forall|k: int| 0 <= k < i ==> (#[trigger] payments@[k])@.amount.hundredths() > 0,
            decreases made@.len() - i,
        {
            let payment = made[i];
            proof {
                assert(plan.payments[i as int] == payment@);
            }
            let debtor = self.names[payment.debtor].clone();
            let creditor = self.names[payment.creditor].clone();
            let amount = Money::new(payment.amount, Currency::USD);
            payments.push(Transaction::new(debtor, creditor, amount).unwrap());
            i += 1;
        }
        proof {
            assert(views(payments@) =~= payments_of(before.parties, plan.payments));
            assert forall|name: Seq<char>|
                paid_out(views(payments@), name) - taken_in(views(payments@), name)
                    == -#[trigger] before.balance_of(name) by {
                lemma_flows_by_name(before, plan.payments, name);
                before.lemma_place_from(name, 0);
            }
        }
        payments
    }

    /// The number of balances that are not zero.
    fn count_open(&self) -> (count: usize)
        ensures
            count == nonzero_count(self@.balances),
    {
        let ghost values = amounts(self.balances@);
        let mut count: usize = 0;
        let mut i: usize = 0;
        while i < self.balances.len()
            invariant
                i <= self.balances@.len(),
                values == amounts(self.balances@),
                count == nonzero_count(values.take(i as int)),
                count <= i,
            decreases self.balances@.len() - i,
        {
            proof {
                assert(values.take(i + 1).drop_last() =~= values.take(i as int));
            }
            if self.balances[i] != 0 {
                count += 1;
            }
            i += 1;
        }
        proof {
            assert(values.take(self.balances@.len() as int) =~= values);
        }
        count
    }

    /// Finds the payments that clear all balances, and clears them, looking
    /// for groups of every size up to one party less than have a balance to
    /// clear. Returns the payments, oldest first. Every balance is zero
    /// afterwards; what a party pays out less what it takes in is what it
    /// owed.
    pub fn settle(&mut self) -> (payments: Vec<Transaction>)
        requires
            old(self).wf(),
        ensures
            final(self).wf(),
            final(self)@.parties == old(self)@.parties,
            all_zero(final(self)@.balances),
            views(payments@) == payments_of(
                old(self)@.parties,
                settle(
                    old(self)@.balances,
                    spare(old(self)@.balances) as nat,
                ).payments,
            ),
            forall|k: int| 0 <= k < payments@.len() ==> (#[trigger] payments@[k])@.amount.hundredths() > 0,
            forall|name: Seq<char>|
                paid_out(views(payments@), name) - taken_in(views(payments@), name)
                    == -#[trigger] old(self)@.balance_of(name),
            payments@.len() <= spare(old(self)@.balances),
    {
        let open = self.count_open();
        let group_size: usize = if open > 0 {
            open - 1
        } else {
            0
        };
        self.settle_upto(group_size)
    }

    /// The parties and their balances, in the order in which the parties
    /// were first named.
    pub fn to_vector(&self) -> (entries: Vec<(String, Money)>)
        requires
            self.wf(),
        ensures
            entries@.len() == self@.parties.len(),
            forall|i: int|
                0 <= i < entries@.len() ==> (#[trigger] entries@[i]).0@ == self@.parties[i]
                    && entries@[i].1.hundredths() == self@.balances[i] && entries@[i].1.unit()
                    == Currency::USD,
            sum(entry_amounts(entries@)) == 0,
    {
        let mut entries: Vec<(String, Money)> = Vec::new();
        let mut i: usize = 0;
        while i < self.names.len()
            invariant
                i <= self.names@.len(),
                self.names@.len() == self.balances@.len(),
                entries@.len() == i,
                forall|k: int|
                    0 <= k < i ==> (#[trigger] entries@[k]).0@ == self@.parties[k]
                        && entries@[k].1.hundredths() == self@.balances[k] && entries@[k].1.unit()
                        == Currency::USD,
            decreases self.names@.len() - i,
        {
            entries.push((self.names[i].clone(), Money::new(self.balances[i], Currency::USD)));
            i += 1;
        }
        assert(entry_amounts(entries@) =~= self@.balances);
        entries
    }
}

} // verus!
