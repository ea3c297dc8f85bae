use payment_engine::amount::Amount;
use payment_engine::engine::{
    Account, ClientId, EngineError, Transaction, TransactionId, TransactionType,
};
use payment_engine::ledger::replay;

fn amt(mantissa: i128, scale: u32) -> Amount {
    Amount::new(mantissa, scale).unwrap()
}

fn deposit(client: u16, tx: u32, mantissa: i128, scale: u32) -> Transaction {
    Transaction {
        transaction_type: TransactionType::Deposit,
        client: ClientId(client),
        tx: TransactionId(tx),
        amount: Some(amt(mantissa, scale)),
    }
}

fn withdrawal(client: u16, tx: u32, mantissa: i128, scale: u32) -> Transaction {
    Transaction {
        transaction_type: TransactionType::Withdrawal,
        client: ClientId(client),
        tx: TransactionId(tx),
        amount: Some(amt(mantissa, scale)),
    }
}

fn reference(kind: TransactionType, client: u16, tx: u32) -> Transaction {
    Transaction {
        transaction_type: kind,
        client: ClientId(client),
        tx: TransactionId(tx),
        amount: None,
    }
}

/// Every snapshot keeps `total == available + held` exactly.
#[test]
fn totals_are_exact_sums() {
    let rows = replay(vec![
        deposit(1, 1, 10, 1),
        deposit(2, 2, 25, 3),
        deposit(1, 3, 20, 1),
        reference(TransactionType::Dispute, 1, 1),
        withdrawal(1, 4, 5, 1),
        reference(TransactionType::Dispute, 2, 2),
        reference(TransactionType::Chargeback, 2, 2),
    ])
    .unwrap();
    for row in rows {
        let sum = row.available.checked_add(row.held).unwrap();
        assert!(sum.eq_value(row.total));
    }
}

/// Once locked by a chargeback, an account absorbs every further event
/// without any change to its snapshot.
#[test]
fn locked_account_absorbs_events() {
    let base = vec![
        deposit(1, 1, 10, 1),
        reference(TransactionType::Dispute, 1, 1),
        reference(TransactionType::Chargeback, 1, 1),
    ];
    let locked_rows = replay(base.clone()).unwrap();
    let mut more = base;
    more.push(deposit(1, 2, 70, 1));
    more.push(withdrawal(1, 3, 5, 1));
    more.push(reference(TransactionType::Dispute, 1, 1));
    more.push(reference(TransactionType::Resolve, 1, 1));
    more.push(reference(TransactionType::Chargeback, 1, 1));
    let after_rows = replay(more).unwrap();
    assert_eq!(locked_rows, after_rows);
}

/// A deposit disputed, resolved, then disputed again holds its amount a
/// second time.
#[test]
fn redispute_after_resolve() {
    let rows = replay(vec![
        deposit(1, 1, 10, 1),
        reference(TransactionType::Dispute, 1, 1),
        reference(TransactionType::Resolve, 1, 1),
        reference(TransactionType::Dispute, 1, 1),
    ])
    .unwrap();
    assert_eq!(rows[0].available, amt(0, 0));
    assert_eq!(rows[0].held, amt(1, 0));
    assert_eq!(rows[0].total, amt(1, 0));
    assert!(!rows[0].locked);
}

#[test]
fn deposit_missing_amount_is_fatal() {
    let r = replay(vec![reference(TransactionType::Deposit, 1, 1)]);
    assert_eq!(r, Err(EngineError::MissingAmount(TransactionType::Deposit)));
}

#[test]
fn withdrawal_missing_amount_is_fatal() {
    let r = replay(vec![reference(TransactionType::Withdrawal, 1, 1)]);
    assert_eq!(
        r,
        Err(EngineError::MissingAmount(TransactionType::Withdrawal))
    );
}

#[test]
fn wrong_client_is_fatal() {
    let mut account = Account::new(ClientId(1));
    let r = account.handle(deposit(2, 1, 10, 1));
    assert_eq!(r, Err(EngineError::WrongClient));
}

#[test]
fn balance_out_of_range_is_fatal() {
    let huge = i128::MAX;
    let r = replay(vec![deposit(1, 1, huge, 18), deposit(1, 2, huge, 18)]);
    assert_eq!(r, Err(EngineError::BalanceOutOfRange));
}

/// A dispute against an unknown id, a withdrawal, or an undisputed resolve
/// target is silently ignored.
#[test]
fn malformed_references_are_ignored() {
    let rows = replay(vec![
        deposit(1, 1, 10, 1),
        withdrawal(1, 2, 5, 1),
        reference(TransactionType::Dispute, 1, 99),
        reference(TransactionType::Dispute, 1, 2),
        reference(TransactionType::Resolve, 1, 1),
        reference(TransactionType::Chargeback, 1, 1),
    ])
    .unwrap();
    assert_eq!(rows[0].available, amt(5, 1));
    assert_eq!(rows[0].held, amt(0, 0));
    assert_eq!(rows[0].total, amt(5, 1));
    assert!(!rows[0].locked);
}

/// A failed withdrawal is recorded but never disputable, and a colliding id
/// from another client's stream stays invisible to this account.
#[test]
fn failed_withdrawal_not_disputable() {
    let rows = replay(vec![
        deposit(1, 1, 10, 1),
        withdrawal(1, 2, 50, 1),
        reference(TransactionType::Dispute, 1, 2),
        deposit(2, 3, 20, 1),
        reference(TransactionType::Dispute, 1, 3),
    ])
    .unwrap();
    assert_eq!(rows[0].available, amt(1, 0));
    assert_eq!(rows[0].held, amt(0, 0));
    assert_eq!(rows[1].available, amt(2, 0));
}

/// A second deposit under an already-used transaction id overwrites the
/// ledger entry, so a later dispute holds the newer amount.
#[test]
fn duplicate_deposit_id_overwrites_entry() {
    let rows = replay(vec![
        deposit(1, 1, 10, 1),
        deposit(1, 1, 20, 1),
        reference(TransactionType::Dispute, 1, 1),
    ])
    .unwrap();
    assert_eq!(rows[0].available, amt(1, 0));
    assert_eq!(rows[0].held, amt(2, 0));
    assert_eq!(rows[0].total, amt(3, 0));
}

/// Accounts come out ordered by ascending client id whatever the input
/// order.
#[test]
fn snapshot_sorted_by_client() {
    let rows = replay(vec![
        deposit(7, 1, 10, 1),
        deposit(3, 2, 20, 1),
        deposit(5, 3, 30, 1),
    ])
    .unwrap();
    let clients: Vec<u16> = rows.iter().map(|r| r.client.0).collect();
    assert_eq!(clients, vec![3, 5, 7]);
}
