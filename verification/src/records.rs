//! The input side of the ledger: operation kinds and transaction records,
//! with the validity rule every record must pass before it reaches the
//! account state machine.

use vstd::prelude::*;

verus! {

/// The kind of operation a transaction record carries.
#[derive(Clone, Copy, Debug, PartialEq, Eq, Structural)]
pub enum Operation {
    Deposit,
    Withdrawal,
    Dispute,
    Resolve,
    Chargeback,
}

impl Operation {
    /// The lower-case tag naming this operation in the record stream.
    pub open spec fn spec_tag(self) -> Seq<char> {
        match self {
            Operation::Deposit => "deposit"@,
            Operation::Withdrawal => "withdrawal"@,
            Operation::Dispute => "dispute"@,
            Operation::Resolve => "resolve"@,
            Operation::Chargeback => "chargeback"@,
        }
    }

    pub fn as_str(&self) -> (r: &'static str)
        ensures
            r@ == self.spec_tag(),
    {
        match self {
            Operation::Deposit => "deposit",
            Operation::Withdrawal => "withdrawal",
            Operation::Dispute => "dispute",
            Operation::Resolve => "resolve",
            Operation::Chargeback => "chargeback",
        }
    }
}

/// One line of the input stream: an operation against a client's account.
///
/// `amount` counts fixed-point currency units and is only meaningful for
/// deposits and withdrawals.
#[derive(Clone, Copy, Debug)]
pub struct Record {
    pub op: Operation,
    pub client: u16,
    pub tx: u32,
    pub amount: Option<u64>,
}

impl Record {
    /// Deposits and withdrawals must carry a strictly positive amount; any
    /// other operation may omit the amount, but an amount it does carry must
    /// still be strictly positive.
    pub open spec fn spec_valid(self) -> bool {
        match self.amount {
            None => !(self.op is Deposit || self.op is Withdrawal),
            Some(a) => a > 0,
        }
    }

    pub fn is_valid(&self) -> (r: bool)
        ensures
            r == self.spec_valid(),
    {
        if self.amount.is_none() && (self.op == Operation::Deposit || self.op == Operation::Withdrawal) {
            false
        } else if let Some(amount) = self.amount {
            amount > 0
        } else {
            true
        }
    }
}

} // verus!
