//! The account ledger state machine.
//!
//! An [`Account`] holds one client's balances, its lock flag and a ledger of
//! every deposit and withdrawal it has seen.  The single entry point
//! [`Account::handle`] applies one transaction event; its contract relates
//! the account before and after the call through the mathematical transition
//! function [`step`] on the ghost [`AccountModel`].

use vstd::prelude::*;

verus! {

use crate::amount::Amount;
use crate::amount::in_units_range;

/// Identifier of a client; accounts are keyed and ordered by it.
#[derive(Clone, Copy, PartialEq, Eq, Structural, Debug, Hash)]
pub struct ClientId(pub u16);

/// Identifier of a transaction, unique across the whole event stream.
#[derive(Clone, Copy, PartialEq, Eq, Structural, Debug, Hash)]
pub struct TransactionId(pub u32);

/// The closed set of event kinds.
#[derive(Clone, Copy, PartialEq, Eq, Structural, Debug)]
pub enum TransactionType {
    Deposit,
    Withdrawal,
    Dispute,
    Resolve,
    Chargeback,
}

/// One event of the replayed log.  `amount` is required for deposits and
/// withdrawals and absent for the three reference kinds.
#[derive(Clone, Copy, PartialEq, Eq, Structural, Debug)]
pub struct Transaction {
    pub transaction_type: TransactionType,
    pub client: ClientId,
    pub tx: TransactionId,
    pub amount: Option<Amount>,
}

impl Transaction {
    pub open spec fn wf(self) -> bool {
        match self.amount {
            Some(a) => a.wf(),
            None => true,
        }
    }
}

/// Dispute phase of a successfully executed deposit.
#[derive(Clone, Copy, PartialEq, Eq, Structural, Debug)]
pub enum DisputeState {
    Undisputed,
    Disputed,
    Resolved,
    Chargeback,
}

/// Execution outcome of a recorded transaction.
#[derive(Clone, Copy, PartialEq, Eq, Structural, Debug)]
pub enum TransactionState {
    Failed,
    Executed { dispute: DisputeState },
}

impl TransactionState {
    pub fn executed() -> (r: TransactionState)
        ensures
            r == (TransactionState::Executed { dispute: DisputeState::Undisputed }),
    {
        TransactionState::Executed { dispute: DisputeState::Undisputed }
    }
}

/// A ledger entry: the submitted record plus its execution outcome.
#[derive(Clone, Copy, PartialEq, Eq, Structural, Debug)]
pub struct AccountTransaction {
    pub transaction: Transaction,
    pub state: TransactionState,
}

impl AccountTransaction {
    pub open spec fn wf(self) -> bool {
        &&& self.transaction.wf()
        &&& self.transaction.amount is Some
        &&& (self.transaction.transaction_type == TransactionType::Deposit
            || self.transaction.transaction_type == TransactionType::Withdrawal)
    }
}

/// Why a replay must abort: the fatal error tier.
#[derive(Clone, Copy, PartialEq, Eq, Structural, Debug)]
pub enum EngineError {
    /// A record was routed to an account of a different client.
    WrongClient,
    /// A deposit or withdrawal carried no amount.
    MissingAmount(TransactionType),
    /// A balance left the representable range of `Amount`.
    BalanceOutOfRange,
}

/// The mathematical content of one ledger entry: the recorded kind, the
/// recorded value in units of `10^(-MAX_SCALE)`, and the outcome.
pub ghost struct EntryModel {
    pub kind: TransactionType,
    pub amount: Option<int>,
    pub state: TransactionState,
}

/// The mathematical state of one account: balances as unit counts and the
/// entry ledger as a map keyed by transaction id.
#[verifier::ext_equal]
pub ghost struct AccountModel {
    pub client: u16,
    pub available: int,
    pub held: int,
    pub total: int,
    pub locked: bool,
    pub entries: Map<u32, EntryModel>,
}

impl AccountModel {
    /// A fresh account: zero balances, unlocked, no entries.
    pub open spec fn init(client: u16) -> AccountModel {
        AccountModel {
            client,
            available: 0,
            held: 0,
            total: 0,
            locked: false,
            entries: Map::empty(),
        }
    }

    /// The account invariant: balances in range and `total` the exact sum of
    /// `available` and `held`.
    pub open spec fn wf(self) -> bool {
        &&& self.total == self.available + self.held
        &&& in_units_range(self.available)
        &&& in_units_range(self.held)
        &&& in_units_range(self.total)
    }
}

pub open spec fn entry_model(e: AccountTransaction) -> EntryModel {
    EntryModel {
        kind: e.transaction.transaction_type,
        amount: match e.transaction.amount {
            Some(a) => Some(a.units()),
            None => None,
        },
        state: e.state,
    }
}

pub open spec fn entries_of(s: Seq<AccountTransaction>) -> Map<u32, EntryModel>
    decreases s.len(),
{
    if s.len() == 0 {
        Map::empty()
    } else {
        entries_of(s.drop_last()).insert(s.last().transaction.tx.0, entry_model(s.last()))
    }
}

pub open spec fn unique_txs(s: Seq<AccountTransaction>) -> bool {
    forall|i: int, j: int|
        0 <= i < j < s.len() ==> s[i].transaction.tx.0 != s[j].transaction.tx.0
}

proof fn lemma_entries_of_contains(s: Seq<AccountTransaction>, k: u32)
    ensures
        entries_of(s).dom().contains(k) <==> exists|i: int|
            0 <= i < s.len() && s[i].transaction.tx.0 == k,
    decreases s.len(),
{
    if s.len() > 0 {
        lemma_entries_of_contains(s.drop_last(), k);
        if s.last().transaction.tx.0 == k {
            assert(s[s.len() - 1].transaction.tx.0 == k);
        } else {
            if entries_of(s).dom().contains(k) {
                let i = choose|i: int| 0 <= i < s.drop_last().len()
                    && s.drop_last()[i].transaction.tx.0 == k;
                assert(s[i].transaction.tx.0 == k);
            }
            if exists|i: int| 0 <= i < s.len() && s[i].transaction.tx.0 == k {
                let i = choose|i: int| 0 <= i < s.len() && s[i].transaction.tx.0 == k;
                assert(i < s.len() - 1);
                assert(s.drop_last()[i].transaction.tx.0 == k);
            }
        }
    }
}

proof fn lemma_entries_of_get(s: Seq<AccountTransaction>, i: int)
    requires
        unique_txs(s),
        0 <= i < s.len(),
    ensures
        entries_of(s).dom().contains(s[i].transaction.tx.0),
        entries_of(s)[s[i].transaction.tx.0] == entry_model(s[i]),
    decreases s.len(),
{
    if i < s.len() - 1 {
        assert(unique_txs(s.drop_last()));
        lemma_entries_of_get(s.drop_last(), i);
        assert(s.drop_last()[i] == s[i]);
        assert(s.last().transaction.tx.0 != s[i].transaction.tx.0);
    }
}

proof fn lemma_entries_of_push(s: Seq<AccountTransaction>, e: AccountTransaction)
    ensures
        entries_of(s.push(e)) == entries_of(s).insert(e.transaction.tx.0, entry_model(e)),
{
    assert(s.push(e).drop_last() =~= s);
    assert(s.push(e).last() == e);
}

proof fn lemma_entries_of_update(s: Seq<AccountTransaction>, i: int, e: AccountTransaction)
    requires
        unique_txs(s),
        0 <= i < s.len(),
        e.transaction.tx.0 == s[i].transaction.tx.0,
    ensures
        entries_of(s.update(i, e)) =~= entries_of(s).insert(e.transaction.tx.0, entry_model(e)),
    decreases s.len(),
{
    let k = e.transaction.tx.0;
    if i == s.len() - 1 {
        assert(s.update(i, e).drop_last() =~= s.drop_last());
        assert(s.update(i, e).last() == e);
        assert(entries_of(s).insert(k, entry_model(e)) =~= entries_of(s.drop_last()).insert(k,
            entry_model(e)));
    } else {
        assert(s.update(i, e).drop_last() =~= s.drop_last().update(i, e));
        assert(unique_txs(s.drop_last()));
        assert(s.drop_last()[i] == s[i]);
        lemma_entries_of_update(s.drop_last(), i, e);
        let lk = s.last().transaction.tx.0;
        assert(lk != k);
        assert(s.update(i, e).last() == s.last());
        assert(entries_of(s.drop_last()).insert(k, entry_model(e)).insert(lk,
            entry_model(s.last())) =~= entries_of(s.drop_last()).insert(lk,
            entry_model(s.last())).insert(k, entry_model(e)));
    }
}

/// What one event does to an account, stated over the ghost model.  Mirrors
/// the policy exactly: a mismatched client id is fatal, a locked account
/// absorbs every event, malformed references are no-ops, and a balance that
/// would leave the representable range is fatal.
pub open spec fn step(m: AccountModel, t: Transaction) -> Result<AccountModel, EngineError> {
    if t.client.0 != m.client {
        Err(EngineError::WrongClient)
    } else if m.locked {
        Ok(m)
    } else {
        match t.transaction_type {
            TransactionType::Deposit => step_deposit(m, t),
            TransactionType::Withdrawal => step_withdrawal(m, t),
            TransactionType::Dispute => step_dispute(m, t),
            TransactionType::Resolve => step_resolve(m, t),
            TransactionType::Chargeback => step_chargeback(m, t),
        }
    }
}

/// Credit the amount and record an executed, undisputed entry.
pub open spec fn step_deposit(m: AccountModel, t: Transaction) -> Result<
    AccountModel,
    EngineError,
> {
    match t.amount {
        None => Err(EngineError::MissingAmount(TransactionType::Deposit)),
        Some(a) => {
            let u = a.units();
            if in_units_range(m.available + u) && in_units_range(m.total + u) {
                Ok(AccountModel {
                    available: m.available + u,
                    total: m.total + u,
                    entries: m.entries.insert(t.tx.0, EntryModel {
                        kind: TransactionType::Deposit,
                        amount: Some(u),
                        state: TransactionState::Executed { dispute: DisputeState::Undisputed },
                    }),
                    ..m
                })
            } else {
                Err(EngineError::BalanceOutOfRange)
            }
        },
    }
}

/// Debit the amount when covered, else record the attempt as failed.
pub open spec fn step_withdrawal(m: AccountModel, t: Transaction) -> Result<
    AccountModel,
    EngineError,
> {
    match t.amount {
        None => Err(EngineError::MissingAmount(TransactionType::Withdrawal)),
        Some(a) => {
            let u = a.units();
            if m.available >= u {
                if in_units_range(m.available - u) && in_units_range(m.total - u) {
                    Ok(AccountModel {
                        available: m.available - u,
                        total: m.total - u,
                        entries: m.entries.insert(t.tx.0, EntryModel {
                            kind: TransactionType::Withdrawal,
                            amount: Some(u),
                            state: TransactionState::Executed {
                                dispute: DisputeState::Undisputed,
                            },
                        }),
                        ..m
                    })
                } else {
                    Err(EngineError::BalanceOutOfRange)
                }
            } else {
                Ok(AccountModel {
                    entries: m.entries.insert(t.tx.0, EntryModel {
                        kind: TransactionType::Withdrawal,
                        amount: Some(u),
                        state: TransactionState::Failed,
                    }),
                    ..m
                })
            }
        },
    }
}

/// Whether an entry is an executed deposit in one of the given phases.
pub open spec fn disputable_in(e: EntryModel, phases: Set<DisputeState>) -> bool {
    &&& e.kind == TransactionType::Deposit
    &&& e.amount is Some
    &&& match e.state {
        TransactionState::Executed { dispute } => phases.contains(dispute),
        TransactionState::Failed => false,
    }
}

/// Honor a dispute against an undisputed or resolved executed deposit;
/// anything else is silently ignored.
pub open spec fn step_dispute(m: AccountModel, t: Transaction) -> Result<
    AccountModel,
    EngineError,
> {
    if m.entries.dom().contains(t.tx.0) {
        let e = m.entries[t.tx.0];
        if disputable_in(e, set![DisputeState::Undisputed, DisputeState::Resolved]) {
            let u = e.amount->Some_0;
            if in_units_range(m.available - u) && in_units_range(m.held + u) {
                Ok(AccountModel {
                    available: m.available - u,
                    held: m.held + u,
                    entries: m.entries.insert(t.tx.0, EntryModel {
                        state: TransactionState::Executed { dispute: DisputeState::Disputed },
                        ..e
                    }),
                    ..m
                })
            } else {
                Err(EngineError::BalanceOutOfRange)
            }
        } else {
            Ok(m)
        }
    } else {
        Ok(m)
    }
}

/// Honor a resolve against a currently disputed executed deposit.
pub open spec fn step_resolve(m: AccountModel, t: Transaction) -> Result<
    AccountModel,
    EngineError,
> {
    if m.entries.dom().contains(t.tx.0) {
        let e = m.entries[t.tx.0];
        if disputable_in(e, set![DisputeState::Disputed]) {
            let u = e.amount->Some_0;
            if in_units_range(m.available + u) && in_units_range(m.held - u) {
                Ok(AccountModel {
                    available: m.available + u,
                    held: m.held - u,
                    entries: m.entries.insert(t.tx.0, EntryModel {
                        state: TransactionState::Executed { dispute: DisputeState::Resolved },
                        ..e
                    }),
                    ..m
                })
            } else {
                Err(EngineError::BalanceOutOfRange)
            }
        } else {
            Ok(m)
        }
    } else {
        Ok(m)
    }
}

/// Honor a chargeback against a currently disputed executed deposit; the
/// entry becomes terminal and the account locks.
pub open spec fn step_chargeback(m: AccountModel, t: Transaction) -> Result<
    AccountModel,
    EngineError,
> {
    if m.entries.dom().contains(t.tx.0) {
        let e = m.entries[t.tx.0];
        if disputable_in(e, set![DisputeState::Disputed]) {
            let u = e.amount->Some_0;
            if in_units_range(m.held - u) && in_units_range(m.total - u) {
                Ok(AccountModel {
                    held: m.held - u,
                    total: m.total - u,
                    locked: true,
                    entries: m.entries.insert(t.tx.0, EntryModel {
                        state: TransactionState::Executed { dispute: DisputeState::Chargeback },
                        ..e
                    }),
                    ..m
                })
            } else {
                Err(EngineError::BalanceOutOfRange)
            }
        } else {
            Ok(m)
        }
    } else {
        Ok(m)
    }
}

/// One client's balances, lock flag and transaction ledger.
pub struct Account {
    pub client: ClientId,
    pub available: Amount,
    pub held: Amount,
    pub total: Amount,
    pub locked: bool,
    pub transactions: Vec<AccountTransaction>,
}

/// A read-only snapshot of one account with canonical amounts.
#[derive(Clone, Copy, PartialEq, Eq, Structural, Debug)]
pub struct AccountInfo {
    pub client: ClientId,
    pub available: Amount,
    pub held: Amount,
    pub total: Amount,
    pub locked: bool,
}

impl Account {
    pub open spec fn wf(self) -> bool {
        &&& self.available.wf()
        &&& self.held.wf()
        &&& self.total.wf()
        &&& self.total.units() == self.available.units() + self.held.units()
        &&& unique_txs(self.transactions@)
        &&& forall|i: int|
            0 <= i < self.transactions@.len() ==> (#[trigger] self.transactions@[i]).wf()
    }

    /// The mathematical state this account represents.
    pub open spec fn model(self) -> AccountModel {
        AccountModel {
            client: self.client.0,
            available: self.available.units(),
            held: self.held.units(),
            total: self.total.units(),
            locked: self.locked,
            entries: entries_of(self.transactions@),
        }
    }

    pub fn new(client: ClientId) -> (r: Account)
        ensures
            r.wf(),
            r.client == client,
            r.model() =~= AccountModel::init(client.0),
    {
        let r = Account {
            client,
            available: Amount::zero(),
            held: Amount::zero(),
            total: Amount::zero(),
            locked: false,
            transactions: Vec::new(),
        };
        proof {
            assert(r.model().entries =~= Map::<u32, EntryModel>::empty());
        }
        r
    }

    /// The snapshot: each balance in canonical form, exact in value.
    pub fn info(&self) -> (r: AccountInfo)
        requires
            self.wf(),
        ensures
            r.client == self.client,
            r.locked == self.model().locked,
            r.available.wf() && r.available.is_normal() && r.available.units()
                == self.model().available,
            r.held.wf() && r.held.is_normal() && r.held.units() == self.model().held,
            r.total.wf() && r.total.is_normal() && r.total.units() == self.model().total,
    {
        AccountInfo {
            client: self.client,
            available: self.available.normalize(),
            held: self.held.normalize(),
            total: self.total.normalize(),
            locked: self.locked,
        }
    }

    fn find_tx(&self, tx: TransactionId) -> (r: Option<usize>)
        ensures
            match r {
                Some(i) => i < self.transactions@.len() && self.transactions@[
                    i as int
                ].transaction.tx.0 == tx.0,
                None => forall|j: int|
                    0 <= j < self.transactions@.len() ==> self.transactions@[
                        j
                    ].transaction.tx.0 != tx.0,
            },
    {
        let mut i: usize = 0;
        while i < self.transactions.len()
            invariant
                i <= self.transactions@.len(),
                forall|j: int|
                    0 <= j < i ==> self.transactions@[j].transaction.tx.0 != tx.0,
            decreases self.transactions@.len() - i,
        {
            if self.transactions[i].transaction.tx.0 == tx.0 {
                return Some(i);
            }
            i = i + 1;
        }
        None
    }

    /// Insert or overwrite the ledger entry under its transaction id; no
    /// other field changes.
    fn insert_entry(&mut self, e: AccountTransaction)
        requires
            old(self).wf(),
            e.wf(),
        ensures
            final(self).wf(),
            final(self).client == old(self).client,
            final(self).available == old(self).available,
            final(self).held == old(self).held,
            final(self).total == old(self).total,
            final(self).locked == old(self).locked,
            entries_of(final(self).transactions@) =~= entries_of(old(self).transactions@).insert(
                e.transaction.tx.0, entry_model(e)),
    {
        match self.find_tx(e.transaction.tx) {
            Some(i) => {
                self.transactions.set(i, e);
                proof {
                    lemma_entries_of_update(old(self).transactions@, i as int, e);
                    assert(unique_txs(self.transactions@));
                }
            },
            None => {
                self.transactions.push(e);
                proof {
                    lemma_entries_of_push(old(self).transactions@, e);
                    assert(unique_txs(self.transactions@)) by {
                        assert(forall|i: int, j: int|
                            0 <= i < j < self.transactions@.len() && j < self.transactions@.len()
                                - 1 ==> self.transactions@[i].transaction.tx.0 != self.transactions@[
                                j
                            ].transaction.tx.0);
                    }
                }
            },
        }
    }

    /// Apply one event.  The result and the new state are exactly what
    /// [`step`] says; on a fatal error the account is untouched.  A locked
    /// account absorbs every event of its own client without change.
    pub fn handle(&mut self, transaction: Transaction) -> (r: Result<(), EngineError>)
        requires
            old(self).wf(),
            transaction.wf(),
        ensures
            final(self).wf(),
            final(self).client == old(self).client,
            match step(old(self).model(), transaction) {
                Ok(m2) => r == Ok::<(), EngineError>(()) && final(self).model() =~= m2,
                Err(e) => r == Err::<(), EngineError>(e) && *final(self) == *old(self),
            },
            old(self).locked && transaction.client == old(self).client ==> *final(self) == *old(
                self,
            ),
    {
        if self.client.0 != transaction.client.0 {
            return Err(EngineError::WrongClient);
        }
        if self.locked {
            return Ok(());
        }
        match transaction.transaction_type {
            TransactionType::Deposit => self.deposit(transaction),
            TransactionType::Withdrawal => self.withdrawal(transaction),
            TransactionType::Dispute => self.dispute(transaction),
            TransactionType::Resolve => self.resolve(transaction),
            TransactionType::Chargeback => self.chargeback(transaction),
        }
    }

    fn deposit(&mut self, transaction: Transaction) -> (r: Result<(), EngineError>)
        requires
            old(self).wf(),
            transaction.wf(),
            transaction.transaction_type == TransactionType::Deposit,
            !old(self).locked,
        ensures
            final(self).wf(),
            final(self).client == old(self).client,
            match step_deposit(old(self).model(), transaction) {
                Ok(m2) => r == Ok::<(), EngineError>(()) && final(self).model() =~= m2,
                Err(e) => r == Err::<(), EngineError>(e) && *final(self) == *old(self),
            },
    {
        let amount = match transaction.amount {
            Some(a) => a,
            None => {
                return Err(EngineError::MissingAmount(TransactionType::Deposit));
            },
        };
        let av = self.available.checked_add(amount);
        let tot = self.total.checked_add(amount);
        match (av, tot) {
            (Some(av), Some(tot)) => {
                self.available = av;
                self.total = tot;
                let state = TransactionState::executed();
                self.insert_entry(AccountTransaction { transaction, state });
                Ok(())
            },
            _ => Err(EngineError::BalanceOutOfRange),
        }
    }

    fn withdrawal(&mut self, transaction: Transaction) -> (r: Result<(), EngineError>)
        requires
            old(self).wf(),
            transaction.wf(),
            transaction.transaction_type == TransactionType::Withdrawal,
            !old(self).locked,
        ensures
            final(self).wf(),
            final(self).client == old(self).client,
            match step_withdrawal(old(self).model(), transaction) {
                Ok(m2) => r == Ok::<(), EngineError>(()) && final(self).model() =~= m2,
                Err(e) => r == Err::<(), EngineError>(e) && *final(self) == *old(self),
            },
    {
        let amount = match transaction.amount {
            Some(a) => a,
            None => {
                return Err(EngineError::MissingAmount(TransactionType::Withdrawal));
            },
        };
        if self.available.ge(amount) {
            let av = self.available.checked_sub(amount);
            let tot = self.total.checked_sub(amount);
            match (av, tot) {
                (Some(av), Some(tot)) => {
                    self.available = av;
                    self.total = tot;
                    let state = TransactionState::executed();
                    self.insert_entry(AccountTransaction { transaction, state });
                    Ok(())
                },
                _ => Err(EngineError::BalanceOutOfRange),
            }
        } else {
            let state = TransactionState::Failed;
            self.insert_entry(AccountTransaction { transaction, state });
            Ok(())
        }
    }

    fn dispute(&mut self, transaction: Transaction) -> (r: Result<(), EngineError>)
        requires
            old(self).wf(),
            transaction.wf(),
            transaction.transaction_type == TransactionType::Dispute,
            !old(self).locked,
        ensures
            final(self).wf(),
            final(self).client == old(self).client,
            match step_dispute(old(self).model(), transaction) {
                Ok(m2) => r == Ok::<(), EngineError>(()) && final(self).model() =~= m2,
                Err(e) => r == Err::<(), EngineError>(e) && *final(self) == *old(self),
            },
    {
        let i = match self.find_tx(transaction.tx) {
            Some(i) => i,
            None => {
                proof {
                    lemma_entries_of_contains(self.transactions@, transaction.tx.0);
                }
                return Ok(());
            },
        };
        proof {
            lemma_entries_of_get(self.transactions@, i as int);
        }
        let e = self.transactions[i];
        let eligible = e.transaction.transaction_type == TransactionType::Deposit && (e.state
            == (TransactionState::Executed { dispute: DisputeState::Undisputed }) || e.state == (
        TransactionState::Executed { dispute: DisputeState::Resolved }));
        if !eligible {
            return Ok(());
        }
        let amount = match e.transaction.amount {
            Some(a) => a,
            None => {
                return Ok(());
            },
        };
        let av = self.available.checked_sub(amount);
        let h = self.held.checked_add(amount);
        match (av, h) {
            (Some(av), Some(h)) => {
                self.available = av;
                self.held = h;
                let e2 = AccountTransaction {
                    transaction: e.transaction,
                    state: TransactionState::Executed { dispute: DisputeState::Disputed },
                };
                self.transactions.set(i, e2);
                proof {
                    lemma_entries_of_update(old(self).transactions@, i as int, e2);
                    assert(unique_txs(self.transactions@));
                }
                Ok(())
            },
            _ => Err(EngineError::BalanceOutOfRange),
        }
    }

    fn resolve(&mut self, transaction: Transaction) -> (r: Result<(), EngineError>)
        requires
            old(self).wf(),
            transaction.wf(),
            transaction.transaction_type == TransactionType::Resolve,
            !old(self).locked,
        ensures
            final(self).wf(),
            final(self).client == old(self).client,
            match step_resolve(old(self).model(), transaction) {
                Ok(m2) => r == Ok::<(), EngineError>(()) && final(self).model() =~= m2,
                Err(e) => r == Err::<(), EngineError>(e) && *final(self) == *old(self),
            },
    {
        let i = match self.find_tx(transaction.tx) {
            Some(i) => i,
            None => {
                proof {
                    lemma_entries_of_contains(self.transactions@, transaction.tx.0);
                }
                return Ok(());
            },
        };
        proof {
            lemma_entries_of_get(self.transactions@, i as int);
        }
        let e = self.transactions[i];
        let eligible = e.transaction.transaction_type == TransactionType::Deposit && e.state == (
        TransactionState::Executed { dispute: DisputeState::Disputed });
        if !eligible {
            return Ok(());
        }
        let amount = match e.transaction.amount {
            Some(a) => a,
            None => {
                return Ok(());
            },
        };
        let av = self.available.checked_add(amount);
        let h = self.held.checked_sub(amount);
        match (av, h) {
            (Some(av), Some(h)) => {
                self.available = av;
                self.held = h;
                let e2 = AccountTransaction {
                    transaction: e.transaction,
                    state: TransactionState::Executed { dispute: DisputeState::Resolved },
                };
                self.transactions.set(i, e2);
                proof {
                    lemma_entries_of_update(old(self).transactions@, i as int, e2);
                    assert(unique_txs(self.transactions@));
                }
                Ok(())
            },
            _ => Err(EngineError::BalanceOutOfRange),
        }
    }

    fn chargeback(&mut self, transaction: Transaction) -> (r: Result<(), EngineError>)
        requires
            old(self).wf(),
            transaction.wf(),
            transaction.transaction_type == TransactionType::Chargeback,
            !old(self).locked,
        ensures
            final(self).wf(),
            final(self).client == old(self).client,
            match step_chargeback(old(self).model(), transaction) {
                Ok(m2) => r == Ok::<(), EngineError>(()) && final(self).model() =~= m2,
                Err(e) => r == Err::<(), EngineError>(e) && *final(self) == *old(self),
            },
    {
        let i = match self.find_tx(transaction.tx) {
            Some(i) => i,
            None => {
                proof {
                    lemma_entries_of_contains(self.transactions@, transaction.tx.0);
                }
                return Ok(());
            },
        };
        proof {
            lemma_entries_of_get(self.transactions@, i as int);
        }
        let e = self.transactions[i];
        let eligible = e.transaction.transaction_type == TransactionType::Deposit && e.state == (
        TransactionState::Executed { dispute: DisputeState::Disputed });
        if !eligible {
            return Ok(());
        }
        let amount = match e.transaction.amount {
            Some(a) => a,
            None => {
                return Ok(());
            },
        };
        let h = self.held.checked_sub(amount);
        let tot = self.total.checked_sub(amount);
        match (h, tot) {
            (Some(h), Some(tot)) => {
                self.held = h;
                self.total = tot;
                self.locked = true;
                let e2 = AccountTransaction {
                    transaction: e.transaction,
                    state: TransactionState::Executed { dispute: DisputeState::Chargeback },
                };
                self.transactions.set(i, e2);
                proof {
                    lemma_entries_of_update(old(self).transactions@, i as int, e2);
                    assert(unique_txs(self.transactions@));
                }
                Ok(())
            },
            _ => Err(EngineError::BalanceOutOfRange),
        }
    }
}

/// The balance invariant survives every honored event: whenever a step
/// succeeds, the new model again has `total` as the exact sum of `available`
/// and `held`, with all three in range.
pub proof fn lemma_step_preserves_invariant(m: AccountModel, t: Transaction)
    requires
        m.wf(),
    ensures
        match step(m, t) {
            Ok(m2) => m2.wf(),
            Err(_) => true,
        },
{
}

/// Once an account is locked, every further event of its client leaves it
/// exactly as it is: balances, ledger entries and the lock flag.
pub proof fn lemma_locked_account_absorbs(m: AccountModel, t: Transaction)
    requires
        m.locked,
        t.client.0 == m.client,
    ensures
        step(m, t) == Ok::<AccountModel, EngineError>(m),
{
}

/// Re-issuing a dispute for an already-disputed transaction id is a no-op.
pub proof fn lemma_dispute_idempotent(m: AccountModel, t: Transaction)
    requires
        t.transaction_type == TransactionType::Dispute,
        t.client.0 == m.client,
        m.entries.dom().contains(t.tx.0),
        m.entries[t.tx.0].state == (TransactionState::Executed {
            dispute: DisputeState::Disputed,
        }),
    ensures
        step(m, t) == Ok::<AccountModel, EngineError>(m),
{
}

/// Re-issuing a chargeback for an already-charged-back transaction id is a
/// no-op: the phase is terminal, so neither the balances nor the lock flag
/// move again.
pub proof fn lemma_chargeback_idempotent(m: AccountModel, t: Transaction)
    requires
        t.transaction_type == TransactionType::Chargeback,
        t.client.0 == m.client,
        m.entries.dom().contains(t.tx.0),
        m.entries[t.tx.0].state == (TransactionState::Executed {
            dispute: DisputeState::Chargeback,
        }),
    ensures
        step(m, t) == Ok::<AccountModel, EngineError>(m),
{
}

/// A deposit that was disputed and then resolved can be disputed again,
/// restoring the shift from available to held a second time: resolving and
/// re-disputing returns the account to exactly the disputed state it was in.
pub proof fn lemma_redispute_after_resolve(
    m: AccountModel,
    t_res: Transaction,
    t_disp: Transaction,
)
    requires
        m.wf(),
        !m.locked,
        t_res.transaction_type == TransactionType::Resolve,
        t_res.client.0 == m.client,
        t_disp.transaction_type == TransactionType::Dispute,
        t_disp.client.0 == m.client,
        t_disp.tx == t_res.tx,
        m.entries.dom().contains(t_res.tx.0),
        m.entries[t_res.tx.0].kind == TransactionType::Deposit,
        m.entries[t_res.tx.0].amount is Some,
        m.entries[t_res.tx.0].state == (TransactionState::Executed {
            dispute: DisputeState::Disputed,
        }),
        in_units_range(m.available + m.entries[t_res.tx.0].amount->Some_0),
        in_units_range(m.held - m.entries[t_res.tx.0].amount->Some_0),
    ensures
        step(m, t_res) is Ok,
        step(step(m, t_res)->Ok_0, t_disp) is Ok,
        step(step(m, t_res)->Ok_0, t_disp)->Ok_0 =~= m,
{
    let k = t_res.tx.0;
    let e = m.entries[k];
    let m1 = step(m, t_res)->Ok_0;
    assert(m1.entries[k].state == (TransactionState::Executed {
        dispute: DisputeState::Resolved,
    }));
    let m2 = step(m1, t_disp)->Ok_0;
    assert(m2.entries =~= m.entries);
    assert(m2 =~= m);
}

} // verus!
