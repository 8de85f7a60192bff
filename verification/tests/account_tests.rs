// Tests for the account state machine. Amounts count ten-thousandths of the
// currency unit, so 30000 stands for 3.0 and 5000 for 0.5.

use payment_ledger::account::Client;
use payment_ledger::records::{Operation, Record};

#[test]
fn record_validity() {
    // a simple deposit record
    let mut r = Record {
        op: Operation::Deposit,
        client: 1,
        amount: Some(10000),
        tx: 1,
    };
    assert!(r.is_valid());

    // it should be valid for a client creation
    let c = Client::from_record(&r);
    assert!(c.is_ok());

    // amount must be strictly greater than 0
    r.amount = Some(0);
    assert!(!r.is_valid());

    // the amount should be present as well...
    r.amount = None;
    assert!(!r.is_valid());

    r.op = Operation::Withdrawal;
    assert!(!r.is_valid());

    // ...but only for some operations
    r.op = Operation::Dispute;
    assert!(r.is_valid());
}

#[test]
fn check_operations() {
    let mut r = Record {
        op: Operation::Deposit,
        client: 1,
        amount: Some(30000),
        tx: 1,
    };
    // valid init
    let mut c = Client::from_record(&r).unwrap();
    assert_eq!(c.total, r.amount.unwrap());
    assert_eq!(c.total, c.available);
    assert_eq!(c.held, 0);
    assert!(!c.locked);

    // deposit
    c.handle_record(&r, false);
    assert_eq!(c.total, r.amount.unwrap() * 2);

    // withdrawal
    r.amount = Some(5000);
    r.op = Operation::Withdrawal;
    c.handle_record(&r, false);
    assert_eq!(c.total, 55000);
    assert_eq!(c.available, 55000);

    // ignore withdrawal if not enough funds
    r.amount = Some(100000);
    r.op = Operation::Withdrawal;
    c.handle_record(&r, false);
    assert_eq!(c.total, 55000);
    assert_eq!(c.available, 55000);

    // validity check
    assert_eq!(c.total, c.available + c.held);
}

#[test]
fn check_disputes() {
    let mut r = Record {
        op: Operation::Deposit,
        client: 1,
        amount: Some(30000),
        tx: 1,
    };
    let mut c = Client::from_record(&r).unwrap();
    r.tx = 2;
    c.handle_record(&r, false);
    r.tx = 3;
    c.handle_record(&r, false);

    // ignore chargeback if no dispute
    r.tx = 1;
    r.op = Operation::Chargeback;
    c.handle_record(&r, false);
    assert_eq!(c.held, 0);

    r.op = Operation::Dispute;
    c.handle_record(&r, false);
    assert_eq!(c.held, 30000);
    assert_eq!(c.total, 90000);
    assert_eq!(c.total, c.available + c.held);

    // valid chargeback
    r.op = Operation::Chargeback;
    c.handle_record(&r, false);
    assert_eq!(c.held, 0);
    assert_eq!(c.total, 60000);
    assert_eq!(c.total, c.available + c.held);
    assert!(c.locked);
    c.locked = false;

    // dispute already handled for the given transaction
    r.op = Operation::Dispute;
    c.handle_record(&r, false);
    assert_eq!(c.held, 0);
    assert_eq!(c.total, c.available + c.held);

    r.tx = 2;
    r.op = Operation::Dispute;
    c.handle_record(&r, false);
    assert_eq!(c.held, 30000);
    assert_eq!(c.total, 60000);

    // resolve the dispute
    r.op = Operation::Resolve;
    c.handle_record(&r, false);
    assert_eq!(c.held, 0);
    assert_eq!(c.total, 60000);
    assert_eq!(c.total, c.available + c.held);

    r.tx = 4;
    r.op = Operation::Deposit;
    c.handle_record(&r, false);

    r.op = Operation::Withdrawal;
    r.amount = Some(90000);
    c.handle_record(&r, false);
    assert_eq!(c.total, 0);

    // no available amount for a dispute
    r.op = Operation::Dispute;
    c.handle_record(&r, false);
    assert_eq!(c.held, 0);
    assert_eq!(c.total, c.available + c.held);

    // ignore operation if account is locked
    r.tx = 5;
    r.op = Operation::Deposit;
    c.locked = true;
    c.handle_record(&r, true);
    assert_eq!(c.total, 0);
}

#[test]
fn operation_tags() {
    assert_eq!(Operation::Deposit.as_str(), "deposit");
    assert_eq!(Operation::Withdrawal.as_str(), "withdrawal");
    assert_eq!(Operation::Dispute.as_str(), "dispute");
    assert_eq!(Operation::Resolve.as_str(), "resolve");
    assert_eq!(Operation::Chargeback.as_str(), "chargeback");
}

#[test]
fn client_creation_refuses_non_deposits() {
    let r = Record {
        op: Operation::Resolve,
        client: 3,
        amount: None,
        tx: 9,
    };
    let c = Client::from_record(&r);
    assert!(c.is_err());
    assert_eq!(c.unwrap_err().operation, Operation::Resolve);
}

#[test]
fn resolve_releases_funds_back() {
    let mut r = Record {
        op: Operation::Deposit,
        client: 2,
        amount: Some(12345),
        tx: 10,
    };
    let mut c = Client::from_record(&r).unwrap();
    r.op = Operation::Dispute;
    c.handle_record(&r, false);
    assert_eq!(c.available, 0);
    assert_eq!(c.held, 12345);
    r.op = Operation::Resolve;
    c.handle_record(&r, false);
    assert_eq!(c.available, 12345);
    assert_eq!(c.held, 0);
    assert_eq!(c.total, 12345);
    assert!(!c.locked);

    // a second resolve of the same settled dispute changes nothing
    c.handle_record(&r, false);
    assert_eq!(c.available, 12345);
    assert_eq!(c.held, 0);
    assert_eq!(c.total, 12345);
}

#[test]
fn unknown_transaction_dispute_is_ignored() {
    let r = Record {
        op: Operation::Deposit,
        client: 2,
        amount: Some(500),
        tx: 1,
    };
    let mut c = Client::from_record(&r).unwrap();
    let d = Record {
        op: Operation::Dispute,
        client: 2,
        amount: None,
        tx: 42,
    };
    c.handle_record(&d, false);
    assert_eq!(c.available, 500);
    assert_eq!(c.held, 0);
    assert_eq!(c.total, 500);
}
