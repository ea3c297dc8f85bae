use payment_engine::amount::Amount;
use payment_engine::engine::{AccountInfo, ClientId, Transaction, TransactionId, TransactionType};
use payment_engine::ledger::replay;

fn amt(mantissa: i128, scale: u32) -> Amount {
    Amount::new(mantissa, scale).unwrap()
}

fn deposit(client: u16, tx: u32, mantissa: i128, scale: u32) -> Transaction {
    Transaction {
        transaction_type: TransactionType::Deposit,
        client: ClientId(client),
        tx: TransactionId(tx),
        amount: Some(amt(mantissa, scale)),
    }
}

fn withdrawal(client: u16, tx: u32, mantissa: i128, scale: u32) -> Transaction {
    Transaction {
        transaction_type: TransactionType::Withdrawal,
        client: ClientId(client),
        tx: TransactionId(tx),
        amount: Some(amt(mantissa, scale)),
    }
}

fn reference(kind: TransactionType, client: u16, tx: u32) -> Transaction {
    Transaction {
        transaction_type: kind,
        client: ClientId(client),
        tx: TransactionId(tx),
        amount: None,
    }
}

fn row(client: u16, available: Amount, held: Amount, total: Amount, locked: bool) -> AccountInfo {
    AccountInfo {
        client: ClientId(client),
        available,
        held,
        total,
        locked,
    }
}

#[test]
fn withdraw_and_deposit() {
    let rows = replay(vec![
        deposit(1, 1, 10, 1),
        deposit(2, 2, 20, 1),
        deposit(1, 3, 20, 1),
        withdrawal(1, 4, 15, 1),
        withdrawal(2, 5, 30, 1),
    ])
    .unwrap();
    assert_eq!(
        rows,
        vec![
            row(1, amt(15, 1), amt(0, 0), amt(15, 1), false),
            row(2, amt(2, 0), amt(0, 0), amt(2, 0), false),
        ]
    );
}

#[test]
fn dispute() {
    let rows = replay(vec![
        deposit(1, 1, 10, 1),
        reference(TransactionType::Dispute, 1, 1),
    ])
    .unwrap();
    assert_eq!(rows, vec![row(1, amt(0, 0), amt(1, 0), amt(1, 0), false)]);
}

#[test]
fn dispute_and_resolve() {
    let rows = replay(vec![
        deposit(1, 1, 10, 1),
        reference(TransactionType::Dispute, 1, 1),
        reference(TransactionType::Resolve, 1, 1),
    ])
    .unwrap();
    assert_eq!(rows, vec![row(1, amt(1, 0), amt(0, 0), amt(1, 0), false)]);
}

#[test]
fn dispute_and_chargeback() {
    let rows = replay(vec![
        deposit(1, 1, 10, 1),
        reference(TransactionType::Dispute, 1, 1),
        reference(TransactionType::Chargeback, 1, 1),
    ])
    .unwrap();
    assert_eq!(rows, vec![row(1, amt(0, 0), amt(0, 0), amt(0, 0), true)]);
}

#[test]
fn double_dispute() {
    let rows = replay(vec![
        deposit(1, 1, 10, 1),
        deposit(1, 2, 30, 1),
        reference(TransactionType::Dispute, 1, 1),
        reference(TransactionType::Dispute, 1, 1),
    ])
    .unwrap();
    assert_eq!(rows, vec![row(1, amt(3, 0), amt(1, 0), amt(4, 0), false)]);
}

#[test]
fn double_chargeback() {
    let rows = replay(vec![
        deposit(1, 1, 10, 1),
        deposit(1, 2, 30, 1),
        reference(TransactionType::Dispute, 1, 1),
        reference(TransactionType::Chargeback, 1, 1),
        reference(TransactionType::Chargeback, 1, 1),
    ])
    .unwrap();
    assert_eq!(rows, vec![row(1, amt(3, 0), amt(0, 0), amt(3, 0), true)]);
}

#[test]
fn double_dispute_and_chargeback() {
    let rows = replay(vec![
        deposit(1, 1, 10, 1),
        deposit(1, 2, 30, 1),
        reference(TransactionType::Dispute, 1, 1),
        reference(TransactionType::Chargeback, 1, 1),
        reference(TransactionType::Dispute, 1, 1),
        reference(TransactionType::Chargeback, 1, 1),
    ])
    .unwrap();
    assert_eq!(rows, vec![row(1, amt(3, 0), amt(0, 0), amt(3, 0), true)]);
}
