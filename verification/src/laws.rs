//! The laws of the ledger: the properties that hold of every account and
//! every run, stated over the same model the executable contracts use and
//! proved once and for all.

use vstd::prelude::*;

use crate::account::{
    account_step, find_tx, lemma_find_tx, lemma_find_tx_prefix_stable, lemma_step_preserves_wf,
    AccountView, DepositView,
};
use crate::ledger::{ledger_step, LedgerView};
use crate::records::Record;

verus! {

/// An account folded over a sequence of records, applied left to right.
pub open spec fn run_account(a: AccountView, rs: Seq<Record>, block_locked: bool) -> AccountView
    decreases rs.len(),
{
    if rs.len() == 0 {
        a
    } else {
        account_step(run_account(a, rs.drop_last(), block_locked), rs.last(), block_locked)
    }
}

/// Balance invariant: after any prefix of valid operations a well-formed
/// account stays well formed — in particular `total == available + held`
/// holds exactly, and `available` never goes negative.
pub proof fn lemma_run_preserves_wf(a: AccountView, rs: Seq<Record>, block_locked: bool)
    requires
        a.wf(),
        forall|i: int| 0 <= i < rs.len() ==> (#[trigger] rs[i]).spec_valid(),
    ensures
        run_account(a, rs, block_locked).wf(),
    decreases rs.len(),
{
    if rs.len() > 0 {
        lemma_run_preserves_wf(a, rs.drop_last(), block_locked);
        lemma_step_preserves_wf(run_account(a, rs.drop_last(), block_locked), rs.last(), block_locked);
    }
}

/// Non-negativity: a withdrawal whose amount exceeds the available balance
/// leaves the account — all three balances included — unchanged.
pub proof fn lemma_overdraw_rejected(a: AccountView, r: Record, block_locked: bool)
    requires
        r.op is Withdrawal,
        r.amount.unwrap() > a.available,
    ensures
        account_step(a, r, block_locked) == a,
{
}

/// Non-negativity: no valid operation can drive the available balance of a
/// well-formed account below zero.
pub proof fn lemma_available_never_negative(a: AccountView, r: Record, block_locked: bool)
    requires
        a.wf(),
        r.spec_valid(),
    ensures
        account_step(a, r, block_locked).available >= 0,
{
    lemma_step_preserves_wf(a, r, block_locked);
}

/// A ledger folded over a sequence of records, applied left to right.
pub open spec fn run_ledger(l: LedgerView, rs: Seq<Record>, block_locked: bool) -> LedgerView
    decreases rs.len(),
{
    if rs.len() == 0 {
        l
    } else {
        ledger_step(run_ledger(l, rs.drop_last(), block_locked), rs.last(), block_locked)
    }
}

/// A deposit or withdrawal whose transaction id the ledger has already
/// seen is discarded outright.
pub proof fn lemma_seen_tx_discarded(l: LedgerView, r: Record, block_locked: bool)
    requires
        r.op is Deposit || r.op is Withdrawal,
        l.seen.contains(r.tx),
    ensures
        ledger_step(l, r, block_locked) == l,
{
}

/// No routing step forgets a seen transaction id.
pub proof fn lemma_seen_monotone(l: LedgerView, rs: Seq<Record>, block_locked: bool, tx: u32)
    requires
        l.seen.contains(tx),
    ensures
        run_ledger(l, rs, block_locked).seen.contains(tx),
    decreases rs.len(),
{
    if rs.len() > 0 {
        lemma_seen_monotone(l, rs.drop_last(), block_locked, tx);
    }
}

/// Dedup idempotence: routing the same deposit or withdrawal record twice
/// has exactly the effect of routing it once.
pub proof fn lemma_dedup_idempotent(l: LedgerView, r: Record, block_locked: bool)
    requires
        r.op is Deposit || r.op is Withdrawal,
    ensures
        ledger_step(ledger_step(l, r, block_locked), r, block_locked)
            == ledger_step(l, r, block_locked),
{
    let l1 = ledger_step(l, r, block_locked);
    assert(l1.seen.contains(r.tx));
}

/// Dedup idempotence across a whole run: once a deposit or withdrawal has
/// been routed, routing the same record again — however many records come
/// between — is a no-op.
pub proof fn lemma_dedup_idempotent_run(
    l: LedgerView,
    r: Record,
    rs: Seq<Record>,
    block_locked: bool,
)
    requires
        r.op is Deposit || r.op is Withdrawal,
    ensures
        ledger_step(run_ledger(ledger_step(l, r, block_locked), rs, block_locked), r, block_locked)
            == run_ledger(ledger_step(l, r, block_locked), rs, block_locked),
{
    let l1 = ledger_step(l, r, block_locked);
    assert(l1.seen.contains(r.tx));
    lemma_seen_monotone(l1, rs, block_locked, r.tx);
    lemma_seen_tx_discarded(run_ledger(l1, rs, block_locked), r, block_locked);
}

/// Dispute terminality: while a deposit's dispute stands resolved or
/// charged back, any dispute, resolve or chargeback referencing its
/// transaction id is a no-op.
pub proof fn lemma_settled_tx_inert(a: AccountView, r: Record, block_locked: bool)
    requires
        r.op is Dispute || r.op is Resolve || r.op is Chargeback,
        find_tx(a.deposits, r.tx) != -1,
        a.deposits[find_tx(a.deposits, r.tx)].handled,
    ensures
        account_step(a, r, block_locked) == a,
{
}

/// Whether a resolve or chargeback of this transaction id would take
/// effect: the account is not blocked, the deposit is known, its dispute
/// open.
pub open spec fn can_settle(a: AccountView, tx: u32, block_locked: bool) -> bool {
    &&& !(block_locked && a.locked)
    &&& find_tx(a.deposits, tx) != -1
    &&& a.deposits[find_tx(a.deposits, tx)].disputed
    &&& !a.deposits[find_tx(a.deposits, tx)].handled
}

/// Dispute terminality: once a resolve or chargeback has closed a
/// deposit's dispute, every further dispute, resolve or chargeback
/// referencing the same transaction id is a no-op.
pub proof fn lemma_settlement_terminal(a: AccountView, r1: Record, r2: Record, block_locked: bool)
    requires
        r1.op is Resolve || r1.op is Chargeback,
        r2.op is Dispute || r2.op is Resolve || r2.op is Chargeback,
        r2.tx == r1.tx,
        can_settle(a, r1.tx, block_locked),
    ensures
        account_step(account_step(a, r1, block_locked), r2, block_locked)
            == account_step(a, r1, block_locked),
{
    let a1 = account_step(a, r1, block_locked);
    let i = find_tx(a.deposits, r1.tx);
    lemma_find_tx(a.deposits, r1.tx);
    let d = a.deposits[i];
    let updated = DepositView { handled: true, ..d };
    assert(a1.deposits == a.deposits.update(i, updated));
    lemma_find_tx_prefix_stable(a.deposits, a1.deposits, r1.tx);
    assert(a1.deposits[i].handled);
    lemma_settled_tx_inert(a1, r2, block_locked);
}

/// How one remembered deposit may evolve under a transition: identity and
/// amount are fixed, and the dispute flags are never cleared.
pub open spec fn deposit_evolves(d0: DepositView, d1: DepositView) -> bool {
    &&& d1.tx == d0.tx
    &&& d1.amount == d0.amount
    &&& (d0.disputed ==> d1.disputed)
    &&& (d0.handled ==> d1.handled)
}

/// The deposit history is append-only: a transition never forgets a
/// deposit, and what it remembers only evolves as [`deposit_evolves`]
/// allows.
pub proof fn lemma_deposits_monotone(a: AccountView, r: Record, block_locked: bool)
    ensures
        a.deposits.len() <= account_step(a, r, block_locked).deposits.len(),
        forall|i: int|
            0 <= i < a.deposits.len() ==> deposit_evolves(
                #[trigger] a.deposits[i],
                account_step(a, r, block_locked).deposits[i],
            ),
{
    if !(block_locked && a.locked) && (r.op is Dispute || r.op is Resolve || r.op
        is Chargeback) {
        lemma_find_tx(a.deposits, r.tx);
    }
}

/// A handled deposit stays handled, at the same place, over any further
/// records.
proof fn lemma_handled_stays(a: AccountView, rs: Seq<Record>, block_locked: bool, tx: u32)
    requires
        find_tx(a.deposits, tx) != -1,
        a.deposits[find_tx(a.deposits, tx)].handled,
    ensures
        find_tx(run_account(a, rs, block_locked).deposits, tx) == find_tx(a.deposits, tx),
        run_account(a, rs, block_locked).deposits[find_tx(a.deposits, tx)].handled,
    decreases rs.len(),
{
    if rs.len() > 0 {
        let i = find_tx(a.deposits, tx);
        let prev = run_account(a, rs.drop_last(), block_locked);
        let next = account_step(prev, rs.last(), block_locked);
        lemma_handled_stays(a, rs.drop_last(), block_locked, tx);
        lemma_find_tx(prev.deposits, tx);
        lemma_deposits_monotone(prev, rs.last(), block_locked);
        lemma_find_tx_prefix_stable(prev.deposits, next.deposits, tx);
        assert(deposit_evolves(prev.deposits[i], next.deposits[i]));
    }
}

/// Dispute terminality across a whole run: once a resolve or chargeback
/// has closed a deposit's dispute, every later dispute, resolve or
/// chargeback referencing the same transaction id — however many records
/// come between — is a no-op.
pub proof fn lemma_settlement_terminal_run(
    a: AccountView,
    r1: Record,
    rs: Seq<Record>,
    r2: Record,
    block_locked: bool,
)
    requires
        r1.op is Resolve || r1.op is Chargeback,
        r2.op is Dispute || r2.op is Resolve || r2.op is Chargeback,
        r2.tx == r1.tx,
        can_settle(a, r1.tx, block_locked),
    ensures
        account_step(
            run_account(account_step(a, r1, block_locked), rs, block_locked),
            r2,
            block_locked,
        ) == run_account(account_step(a, r1, block_locked), rs, block_locked),
{
    let a1 = account_step(a, r1, block_locked);
    let i = find_tx(a.deposits, r1.tx);
    lemma_find_tx(a.deposits, r1.tx);
    lemma_find_tx_prefix_stable(a.deposits, a1.deposits, r1.tx);
    assert(a1.deposits[i].handled);
    lemma_handled_stays(a1, rs, block_locked, r1.tx);
    lemma_settled_tx_inert(run_account(a1, rs, block_locked), r2, block_locked);
}

/// Lock permanence: no transition clears a set lock flag.
pub proof fn lemma_lock_permanent(a: AccountView, r: Record, block_locked: bool)
    requires
        a.locked,
    ensures
        account_step(a, r, block_locked).locked,
{
}

/// Lock permanence over a whole run: once locked, an account stays locked
/// for the remainder of the stream, whatever records follow.
pub proof fn lemma_lock_permanent_run(a: AccountView, rs: Seq<Record>, block_locked: bool)
    requires
        a.locked,
    ensures
        run_account(a, rs, block_locked).locked,
    decreases rs.len(),
{
    if rs.len() > 0 {
        lemma_lock_permanent_run(a, rs.drop_last(), block_locked);
        lemma_lock_permanent(run_account(a, rs.drop_last(), block_locked), rs.last(), block_locked);
    }
}

} // verus!
