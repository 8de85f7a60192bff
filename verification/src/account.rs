//! The account state machine: one client's balances, lock flag, and
//! remembered deposits, together with the mathematical model that the
//! contracts are stated over.
//!
//! The model works on unbounded integers, so every transition is total; the
//! executable methods are proved to follow it exactly, and their
//! preconditions carry the one machine limit (a deposit must not push the
//! total past `u64::MAX`).

use vstd::prelude::*;

use crate::records::{Operation, Record};

verus! {

/// One remembered deposit, as the contracts see it.
#[verifier::ext_equal]
pub ghost struct DepositView {
    pub tx: u32,
    pub amount: int,
    pub disputed: bool,
    pub handled: bool,
}

impl DepositView {
    /// A deposit whose dispute is open: its amount is currently held.
    pub open spec fn active(self) -> bool {
        self.disputed && !self.handled
    }

    /// What this deposit adds to the held balance.
    pub open spec fn held_part(self) -> int {
        if self.active() {
            self.amount
        } else {
            0
        }
    }
}

/// Sum of the amounts of all deposits whose dispute is open.
pub open spec fn held_sum(s: Seq<DepositView>) -> int
    decreases s.len(),
{
    if s.len() == 0 {
        0
    } else {
        held_sum(s.drop_last()) + s.last().held_part()
    }
}

/// Appending a deposit adds exactly its held part to the held sum.
pub proof fn lemma_held_sum_push(s: Seq<DepositView>, d: DepositView)
    ensures
        held_sum(s.push(d)) == held_sum(s) + d.held_part(),
{
    assert(s.push(d).drop_last() =~= s);
}

/// Replacing one deposit swaps its held part inside the held sum.
pub proof fn lemma_held_sum_update(s: Seq<DepositView>, i: int, d: DepositView)
    requires
        0 <= i < s.len(),
    ensures
        held_sum(s.update(i, d)) == held_sum(s) - s[i].held_part() + d.held_part(),
    decreases s.len(),
{
    let t = s.update(i, d);
    if i == s.len() - 1 {
        assert(t.drop_last() =~= s.drop_last());
    } else {
        assert(t.drop_last() =~= s.drop_last().update(i, d));
        lemma_held_sum_update(s.drop_last(), i, d);
    }
}

/// With no negative amounts the held sum cannot be negative.
pub proof fn lemma_held_sum_nonneg(s: Seq<DepositView>)
    requires
        forall|i: int| 0 <= i < s.len() ==> (#[trigger] s[i]).amount >= 0,
    ensures
        held_sum(s) >= 0,
    decreases s.len(),
{
    if s.len() > 0 {
        lemma_held_sum_nonneg(s.drop_last());
    }
}

/// An open dispute's amount is covered by the held sum.
pub proof fn lemma_active_le_held_sum(s: Seq<DepositView>, i: int)
    requires
        forall|j: int| 0 <= j < s.len() ==> (#[trigger] s[j]).amount >= 0,
        0 <= i < s.len(),
        s[i].active(),
    ensures
        s[i].amount <= held_sum(s),
    decreases s.len(),
{
    if i == s.len() - 1 {
        lemma_held_sum_nonneg(s.drop_last());
    } else {
        lemma_active_le_held_sum(s.drop_last(), i);
    }
}

/// First position of the deposit with this transaction id, or -1.
pub open spec fn find_tx(s: Seq<DepositView>, tx: u32) -> int
    decreases s.len(),
{
    if s.len() == 0 {
        -1
    } else if s[0].tx == tx {
        0
    } else {
        let r = find_tx(s.drop_first(), tx);
        if r < 0 {
            -1
        } else {
            r + 1
        }
    }
}

/// `find_tx` returns -1 exactly when no deposit matches, and otherwise the
/// first matching position.
pub proof fn lemma_find_tx(s: Seq<DepositView>, tx: u32)
    ensures
        find_tx(s, tx) == -1 ==> forall|i: int| 0 <= i < s.len() ==> (#[trigger] s[i]).tx != tx,
        find_tx(s, tx) != -1 ==> {
            let j = find_tx(s, tx);
            &&& 0 <= j < s.len()
            &&& s[j].tx == tx
            &&& forall|i: int| 0 <= i < j ==> (#[trigger] s[i]).tx != tx
        },
    decreases s.len(),
{
    if s.len() > 0 && s[0].tx != tx {
        let t = s.drop_first();
        lemma_find_tx(t, tx);
        let rt = find_tx(t, tx);
        if rt == -1 {
            assert forall|i: int| 0 <= i < s.len() implies (#[trigger] s[i]).tx != tx by {
                if i > 0 {
                    assert(t[i - 1] == s[i]);
                }
            }
        } else {
            assert(s[rt + 1] == t[rt]);
            assert forall|i: int| 0 <= i < rt + 1 implies (#[trigger] s[i]).tx != tx by {
                if i > 0 {
                    assert(t[i - 1] == s[i]);
                }
            }
        }
    }
}

/// A found deposit keeps its position when the run of deposits grows at
/// the end or changes flags in place: only the transaction ids up to the
/// old length matter.
pub proof fn lemma_find_tx_prefix_stable(s1: Seq<DepositView>, s2: Seq<DepositView>, tx: u32)
    requires
        s1.len() <= s2.len(),
        forall|i: int| 0 <= i < s1.len() ==> (#[trigger] s2[i]).tx == s1[i].tx,
        find_tx(s1, tx) != -1,
    ensures
        find_tx(s2, tx) == find_tx(s1, tx),
{
    lemma_find_tx(s1, tx);
    lemma_find_tx(s2, tx);
    let j1 = find_tx(s1, tx);
    assert(s2[j1].tx == tx);
    let j2 = find_tx(s2, tx);
    assert(j2 != -1);
    assert(j2 <= j1);
    if j2 < j1 {
        assert(s1[j2].tx == tx);
        assert(false);
    }
}

/// One account, as the contracts see it: balances are unbounded integers.
#[verifier::ext_equal]
pub ghost struct AccountView {
    pub id: u16,
    pub available: int,
    pub held: int,
    pub total: int,
    pub locked: bool,
    pub deposits: Seq<DepositView>,
}

impl AccountView {
    /// Well-formedness: the balance invariant, non-negative available funds,
    /// a held balance that is exactly the sum of the open disputes, and
    /// strictly positive deposit amounts.
    pub open spec fn wf(self) -> bool {
        &&& self.total == self.available + self.held
        &&& self.available >= 0
        &&& self.held == held_sum(self.deposits)
        &&& forall|i: int| 0 <= i < self.deposits.len() ==> (#[trigger] self.deposits[i]).amount > 0
    }
}

/// The account freshly created from its first deposit.
pub open spec fn new_account(id: u16, tx: u32, amount: int) -> AccountView {
    AccountView {
        id,
        available: amount,
        held: 0,
        total: amount,
        locked: false,
        deposits: seq![DepositView { tx, amount, disputed: false, handled: false }],
    }
}

/// A deposit always succeeds: it raises available and total and is
/// remembered for later disputes.
pub open spec fn deposit_step(a: AccountView, tx: u32, amount: int) -> AccountView {
    AccountView {
        available: a.available + amount,
        total: a.total + amount,
        deposits: a.deposits.push(DepositView { tx, amount, disputed: false, handled: false }),
        ..a
    }
}

/// A withdrawal succeeds only when covered by the available balance;
/// otherwise it is silently rejected and nothing changes.
pub open spec fn withdraw_step(a: AccountView, amount: int) -> AccountView {
    if amount <= a.available {
        AccountView { available: a.available - amount, total: a.total - amount, ..a }
    } else {
        a
    }
}

/// A dispute freezes the referenced deposit's amount, moving it from
/// available to held. It is a no-op when the deposit is unknown, already
/// disputed or handled, or not covered by the available balance.
pub open spec fn dispute_step(a: AccountView, tx: u32) -> AccountView {
    let i = find_tx(a.deposits, tx);
    if i == -1 {
        a
    } else {
        let d = a.deposits[i];
        if d.disputed || d.handled {
            a
        } else if a.available >= d.amount {
            AccountView {
                available: a.available - d.amount,
                held: a.held + d.amount,
                deposits: a.deposits.update(i, DepositView { disputed: true, ..d }),
                ..a
            }
        } else {
            a
        }
    }
}

/// Resolves and chargebacks share one transition: both close an open
/// dispute and release the held amount, back to available for a resolve,
/// out of the account (locking it) for a chargeback. It is a no-op when the
/// deposit is unknown, not disputed, or already handled.
pub open spec fn settle_step(a: AccountView, tx: u32, is_chargeback: bool) -> AccountView {
    let i = find_tx(a.deposits, tx);
    if i == -1 {
        a
    } else {
        let d = a.deposits[i];
        if !d.disputed || d.handled {
            a
        } else {
            let deposits = a.deposits.update(i, DepositView { handled: true, ..d });
            if is_chargeback {
                AccountView {
                    held: a.held - d.amount,
                    total: a.total - d.amount,
                    locked: true,
                    deposits,
                    ..a
                }
            } else {
                AccountView {
                    held: a.held - d.amount,
                    available: a.available + d.amount,
                    deposits,
                    ..a
                }
            }
        }
    }
}

/// One record applied to one account, with the "block locked accounts"
/// configuration guard in front.
pub open spec fn account_step(a: AccountView, r: Record, block_locked: bool) -> AccountView {
    if block_locked && a.locked {
        a
    } else {
        match r.op {
            Operation::Deposit => deposit_step(a, r.tx, r.amount.unwrap() as int),
            Operation::Withdrawal => withdraw_step(a, r.amount.unwrap() as int),
            Operation::Dispute => dispute_step(a, r.tx),
            Operation::Resolve => settle_step(a, r.tx, false),
            Operation::Chargeback => settle_step(a, r.tx, true),
        }
    }
}

/// Every transition keeps the account well formed and never touches its
/// identity.
pub proof fn lemma_step_preserves_wf(a: AccountView, r: Record, block_locked: bool)
    requires
        a.wf(),
        r.spec_valid(),
    ensures
        account_step(a, r, block_locked).wf(),
        account_step(a, r, block_locked).id == a.id,
{
    let a2 = account_step(a, r, block_locked);
    if block_locked && a.locked {
    } else {
        match r.op {
            Operation::Deposit => {
                let amount = r.amount.unwrap() as int;
                let d = DepositView { tx: r.tx, amount, disputed: false, handled: false };
                lemma_held_sum_push(a.deposits, d);
            },
            Operation::Withdrawal => {},
            Operation::Dispute => {
                let i = find_tx(a.deposits, r.tx);
                lemma_find_tx(a.deposits, r.tx);
                if i != -1 {
                    let d = a.deposits[i];
                    if !d.disputed && !d.handled && a.available >= d.amount {
                        lemma_held_sum_update(a.deposits, i, DepositView { disputed: true, ..d });
                    }
                }
            },
            Operation::Resolve => {
                lemma_settle_preserves_wf(a, r.tx, false);
            },
            Operation::Chargeback => {
                lemma_settle_preserves_wf(a, r.tx, true);
            },
        }
    }
}

/// The shared resolve/chargeback transition keeps the account well formed.
proof fn lemma_settle_preserves_wf(a: AccountView, tx: u32, is_chargeback: bool)
    requires
        a.wf(),
    ensures
        settle_step(a, tx, is_chargeback).wf(),
{
    let i = find_tx(a.deposits, tx);
    lemma_find_tx(a.deposits, tx);
    if i != -1 {
        let d = a.deposits[i];
        if d.disputed && !d.handled {
            lemma_active_le_held_sum(a.deposits, i);
            lemma_held_sum_update(a.deposits, i, DepositView { handled: true, ..d });
        }
    }
}

/// One deposit remembered by its account, so that a later dispute can
/// reference it by transaction id.
#[derive(Clone, Copy, Debug)]
pub struct ClientDeposit {
    pub tx: u32,
    pub amount: u64,
    pub is_disputed: bool,
    pub is_dispute_handled: bool,
}

impl View for ClientDeposit {
    type V = DepositView;

    open spec fn view(&self) -> DepositView {
        DepositView {
            tx: self.tx,
            amount: self.amount as int,
            disputed: self.is_disputed,
            handled: self.is_dispute_handled,
        }
    }
}

impl ClientDeposit {
    /// A fresh, undisputed deposit taken from a record that carries an amount.
    pub fn from_record(record: &Record) -> (r: ClientDeposit)
        requires
            record.amount is Some,
        ensures
            r@ == (DepositView {
                tx: record.tx,
                amount: record.amount.unwrap() as int,
                disputed: false,
                handled: false,
            }),
    {
        ClientDeposit {
            tx: record.tx,
            amount: record.amount.unwrap(),
            is_disputed: false,
            is_dispute_handled: false,
        }
    }
}

/// A record that is not a deposit cannot create an account.
#[derive(Clone, Copy, Debug)]
pub struct BadRecordForClientCreation {
    pub operation: Operation,
}

/// One client's account: balances, the one-way lock flag, and the
/// append-only memory of every deposit ever applied.
///
/// All transactions are handled through [`Client::handle_record`]; the
/// records it takes are assumed valid (see [`Record::spec_valid`]) and the
/// account well formed (see [`AccountView::wf`]), which every constructor
/// and method of this type establishes and preserves.
#[derive(Debug)]
pub struct Client {
    pub id: u16,
    pub deposits: Vec<ClientDeposit>,
    pub available: u64,
    pub held: u64,
    pub total: u64,
    pub locked: bool,
}

impl View for Client {
    type V = AccountView;

    open spec fn view(&self) -> AccountView {
        AccountView {
            id: self.id,
            available: self.available as int,
            held: self.held as int,
            total: self.total as int,
            locked: self.locked,
            deposits: self.deposits@.map_values(|d: ClientDeposit| d@),
        }
    }
}

impl Client {
    /// Creates the account a deposit record seeds: its amount is both the
    /// available and the total balance. Any other operation is refused.
    pub fn from_record(record: &Record) -> (r: Result<Client, BadRecordForClientCreation>)
        requires
            record.spec_valid(),
        ensures
            record.op is Deposit ==> {
                &&& r is Ok
                &&& r->Ok_0@ == new_account(record.client, record.tx, record.amount.unwrap() as int)
                &&& r->Ok_0@.wf()
            },
            !(record.op is Deposit) ==> r is Err && r->Err_0.operation == record.op,
    {
        match &record.op {
            Operation::Deposit => {
                let total = record.amount.unwrap();
                let client = Client {
                    id: record.client,
                    available: total,
                    held: 0,
                    total,
                    locked: false,
                    deposits: vec![ClientDeposit::from_record(record)],
                };
                proof {
                    let ghost dv = DepositView {
                        tx: record.tx,
                        amount: record.amount.unwrap() as int,
                        disputed: false,
                        handled: false,
                    };
                    assert(client@.deposits =~= seq![dv]);
                    lemma_held_sum_push(Seq::<DepositView>::empty(), dv);
                    assert(Seq::<DepositView>::empty().push(dv) =~= seq![dv]);
                    assert(held_sum(Seq::<DepositView>::empty()) == 0);
                    assert(client@ =~= new_account(record.client, record.tx, record.amount.unwrap() as int));
                }
                Ok(client)
            },
            op => Err(BadRecordForClientCreation { operation: *op }),
        }
    }

    /// Applies one valid record to this account, exactly as
    /// [`account_step`] describes, including the "block locked accounts"
    /// guard.
    pub fn handle_record(&mut self, record: &Record, should_block_locked: bool)
        requires
            old(self)@.wf(),
            record.spec_valid(),
            record.op is Deposit && !(should_block_locked && old(self).locked)
                ==> old(self).total + record.amount.unwrap() <= u64::MAX,
        ensures
            final(self)@ == account_step(old(self)@, *record, should_block_locked),
            final(self)@.wf(),
    {
        proof {
            lemma_step_preserves_wf(old(self)@, *record, should_block_locked);
        }
        if should_block_locked && self.locked {
            return ;
        }
        match &record.op {
            Operation::Deposit => {
                let amount = record.amount.unwrap();
                self.deposit_amount(amount);
                self.deposits.push(ClientDeposit::from_record(record));
                proof {
                    assert(self@.deposits =~= old(self)@.deposits.push(
                        DepositView {
                            tx: record.tx,
                            amount: record.amount.unwrap() as int,
                            disputed: false,
                            handled: false,
                        },
                    ));
                    assert(self@ =~= account_step(old(self)@, *record, should_block_locked));
                }
            },
            Operation::Withdrawal => {
                let amount = record.amount.unwrap();
                self.withdraw_amount(amount);
                proof {
                    assert(self@ =~= account_step(old(self)@, *record, should_block_locked));
                }
            },
            Operation::Dispute => self.new_dispute(record.tx),
            Operation::Resolve => self.resolve_dispute(record.tx, false),
            Operation::Chargeback => self.resolve_dispute(record.tx, true),
        }
    }

    /// Raises available and total by the deposited amount.
    fn deposit_amount(&mut self, amount: u64)
        requires
            old(self).available <= old(self).total,
            old(self).total + amount <= u64::MAX,
        ensures
            final(self).available == old(self).available + amount,
            final(self).total == old(self).total + amount,
            final(self).held == old(self).held,
            final(self).id == old(self).id,
            final(self).locked == old(self).locked,
            final(self).deposits@ == old(self).deposits@,
    {
        self.available = self.available + amount;
        self.total = self.total + amount;
    }

    /// Lowers available and total by the withdrawn amount, or silently
    /// rejects the withdrawal when the available balance does not cover it.
    fn withdraw_amount(&mut self, amount: u64)
        requires
            old(self).available <= old(self).total,
        ensures
            amount <= old(self).available ==> {
                &&& final(self).available == old(self).available - amount
                &&& final(self).total == old(self).total - amount
            },
            amount > old(self).available ==> {
                &&& final(self).available == old(self).available
                &&& final(self).total == old(self).total
            },
            final(self).held == old(self).held,
            final(self).id == old(self).id,
            final(self).locked == old(self).locked,
            final(self).deposits@ == old(self).deposits@,
    {
        if amount <= self.available {
            self.available = self.available - amount;
            self.total = self.total - amount;
        }
    }

    /// Finds the first remembered deposit with this transaction id, as
    /// [`find_tx`] describes it.
    fn find_deposit_index(&self, tx: u32) -> (r: Option<usize>)
        ensures
            match r {
                Some(i) => i < self.deposits@.len() && i == find_tx(self@.deposits, tx),
                None => find_tx(self@.deposits, tx) == -1,
            },
    {
        proof {
            lemma_find_tx(self@.deposits, tx);
        }
        let n = self.deposits.len();
        let mut i: usize = 0;
        while i < n
            invariant
                i <= n,
                n == self.deposits@.len(),
                forall|j: int| 0 <= j < i ==> (#[trigger] self@.deposits[j]).tx != tx,
            decreases n - i,
        {
            if self.deposits[i].tx == tx {
                proof {
                    lemma_find_tx(self@.deposits, tx);
                    assert(self@.deposits[i as int].tx == tx);
                }
                return Some(i);
            }
            i = i + 1;
        }
        None
    }

    /// Opens a dispute: freezes the referenced deposit's amount, exactly as
    /// [`dispute_step`] describes.
    fn new_dispute(&mut self, tx: u32)
        requires
            old(self)@.wf(),
        ensures
            final(self)@ == dispute_step(old(self)@, tx),
            final(self)@.wf(),
    {
        if let Some(i) = self.find_deposit_index(tx) {
            let deposit = self.deposits[i];
            if deposit.is_disputed || deposit.is_dispute_handled {
                return ;
            }
            if self.available >= deposit.amount {
                let updated = ClientDeposit { is_disputed: true, ..deposit };
                self.deposits[i] = updated;
                self.available = self.available - deposit.amount;
                self.held = self.held + deposit.amount;
                proof {
                    assert(self@.deposits =~= old(self)@.deposits.update(
                        i as int,
                        DepositView { disputed: true, ..old(self)@.deposits[i as int] },
                    ));
                    assert(self@ =~= dispute_step(old(self)@, tx));
                    lemma_held_sum_update(
                        old(self)@.deposits,
                        i as int,
                        DepositView { disputed: true, ..old(self)@.deposits[i as int] },
                    );
                }
            }
        }
    }

    /// Closes an open dispute: a resolve releases the held amount back to
    /// available, a chargeback removes it and locks the account, exactly as
    /// [`settle_step`] describes.
    fn resolve_dispute(&mut self, tx: u32, is_chargeback: bool)
        requires
            old(self)@.wf(),
        ensures
            final(self)@ == settle_step(old(self)@, tx, is_chargeback),
            final(self)@.wf(),
    {
        proof {
            lemma_settle_preserves_wf(old(self)@, tx, is_chargeback);
        }
        if let Some(i) = self.find_deposit_index(tx) {
            let deposit = self.deposits[i];
            if !deposit.is_disputed || deposit.is_dispute_handled {
                return ;
            }
            proof {
                lemma_active_le_held_sum(old(self)@.deposits, i as int);
            }
            let updated = ClientDeposit { is_dispute_handled: true, ..deposit };
            self.deposits[i] = updated;
            self.held = self.held - deposit.amount;
            if !is_chargeback {
                self.available = self.available + deposit.amount;
            } else {
                self.total = self.total - deposit.amount;
                self.locked = true;
            }
            proof {
                assert(self@.deposits =~= old(self)@.deposits.update(
                    i as int,
                    DepositView { handled: true, ..old(self)@.deposits[i as int] },
                ));
                assert(self@ =~= settle_step(old(self)@, tx, is_chargeback));
            }
        }
    }
}

} // verus!
