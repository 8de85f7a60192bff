// Tests for the transaction router. Amounts count ten-thousandths of the
// currency unit, so 30000 stands for 3.0.

use payment_ledger::ledger::{Ledger, LedgerError};
use payment_ledger::records::{Operation, Record};

fn deposit(client: u16, tx: u32, amount: u64) -> Record {
    Record {
        op: Operation::Deposit,
        client,
        tx,
        amount: Some(amount),
    }
}

#[test]
fn single_deposit_creates_account() {
    let mut ledger = Ledger::new();
    assert!(ledger.process_record(&deposit(1, 1, 30000), false).is_ok());
    assert_eq!(ledger.clients.len(), 1);
    let c = &ledger.clients[0];
    assert_eq!(c.id, 1);
    assert_eq!(c.available, 30000);
    assert_eq!(c.held, 0);
    assert_eq!(c.total, 30000);
    assert!(!c.locked);
}

#[test]
fn duplicate_transaction_ids_are_ignored() {
    let mut ledger = Ledger::new();
    assert!(ledger.process_record(&deposit(1, 1, 30000), false).is_ok());
    // the same transaction id again: silently discarded
    assert!(ledger.process_record(&deposit(1, 1, 30000), false).is_ok());
    assert_eq!(ledger.clients.len(), 1);
    assert_eq!(ledger.clients[0].total, 30000);

    // a withdrawal reusing a seen id is discarded too
    let w = Record {
        op: Operation::Withdrawal,
        client: 1,
        tx: 1,
        amount: Some(10000),
    };
    assert!(ledger.process_record(&w, false).is_ok());
    assert_eq!(ledger.clients[0].total, 30000);
}

#[test]
fn non_deposit_for_unknown_client_is_discarded() {
    let mut ledger = Ledger::new();
    let w = Record {
        op: Operation::Withdrawal,
        client: 9,
        tx: 1,
        amount: Some(100),
    };
    assert!(ledger.process_record(&w, false).is_ok());
    let d = Record {
        op: Operation::Dispute,
        client: 9,
        tx: 1,
        amount: None,
    };
    assert!(ledger.process_record(&d, false).is_ok());
    assert_eq!(ledger.clients.len(), 0);
}

#[test]
fn records_route_to_their_own_client() {
    let mut ledger = Ledger::new();
    assert!(ledger.process_record(&deposit(1, 1, 30000), false).is_ok());
    assert!(ledger.process_record(&deposit(2, 2, 55000), false).is_ok());
    let w = Record {
        op: Operation::Withdrawal,
        client: 2,
        tx: 3,
        amount: Some(5000),
    };
    assert!(ledger.process_record(&w, false).is_ok());
    assert_eq!(ledger.clients.len(), 2);
    assert_eq!(ledger.clients[0].id, 1);
    assert_eq!(ledger.clients[0].total, 30000);
    assert_eq!(ledger.clients[1].id, 2);
    assert_eq!(ledger.clients[1].total, 50000);
}

#[test]
fn chargeback_locks_and_blocks_when_configured() {
    let mut ledger = Ledger::new();
    assert!(ledger.process_record(&deposit(1, 1, 30000), true).is_ok());
    let dispute = Record {
        op: Operation::Dispute,
        client: 1,
        tx: 1,
        amount: None,
    };
    assert!(ledger.process_record(&dispute, true).is_ok());
    let chargeback = Record {
        op: Operation::Chargeback,
        client: 1,
        tx: 1,
        amount: None,
    };
    assert!(ledger.process_record(&chargeback, true).is_ok());
    assert_eq!(ledger.clients[0].total, 0);
    assert!(ledger.clients[0].locked);

    // with "block locked accounts" on, a fresh deposit is refused
    assert!(ledger.process_record(&deposit(1, 5, 10000), true).is_ok());
    assert_eq!(ledger.clients[0].total, 0);
}

#[test]
fn locked_account_still_accepts_deposits_by_default() {
    let mut ledger = Ledger::new();
    assert!(ledger.process_record(&deposit(1, 1, 30000), false).is_ok());
    let dispute = Record {
        op: Operation::Dispute,
        client: 1,
        tx: 1,
        amount: None,
    };
    assert!(ledger.process_record(&dispute, false).is_ok());
    let chargeback = Record {
        op: Operation::Chargeback,
        client: 1,
        tx: 1,
        amount: None,
    };
    assert!(ledger.process_record(&chargeback, false).is_ok());
    assert!(ledger.clients[0].locked);

    // the lock alone does not stop further activity
    assert!(ledger.process_record(&deposit(1, 5, 10000), false).is_ok());
    assert_eq!(ledger.clients[0].total, 10000);
    assert!(ledger.clients[0].locked);
}

#[test]
fn overflowing_deposit_is_reported() {
    let mut ledger = Ledger::new();
    assert!(ledger.process_record(&deposit(1, 1, u64::MAX), false).is_ok());
    assert_eq!(ledger.clients[0].total, u64::MAX);
    let r = ledger.process_record(&deposit(1, 2, 1), false);
    assert_eq!(r, Err(LedgerError::BalanceOverflow));
    // nothing changed, so the failed transaction id was not remembered
    assert_eq!(ledger.clients[0].total, u64::MAX);
    assert_eq!(ledger.clients[0].available, u64::MAX);
}
