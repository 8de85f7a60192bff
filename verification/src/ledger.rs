//! The transaction router: owns the accounts keyed by client id and the
//! run-wide set of transaction ids already spent on a deposit or
//! withdrawal, and forwards each valid record to the right account.

use std::collections::HashSet;

use vstd::prelude::*;

use crate::account::{account_step, lemma_step_preserves_wf, new_account, AccountView, Client};
use crate::records::{Operation, Record};

verus! {

broadcast use vstd::std_specs::hash::group_hash_axioms;

/// The whole run, as the contracts see it.
#[verifier::ext_equal]
pub ghost struct LedgerView {
    pub accounts: Seq<AccountView>,
    pub seen: Set<u32>,
}

impl LedgerView {
    /// Well-formedness: every account is well formed and client ids are
    /// unique.
    pub open spec fn wf(self) -> bool {
        &&& forall|i: int| 0 <= i < self.accounts.len() ==> (#[trigger] self.accounts[i]).wf()
        &&& forall|i: int, j: int|
            0 <= i < j < self.accounts.len() ==> self.accounts[i].id != self.accounts[j].id
    }
}

/// First position of the account owned by this client, or -1.
pub open spec fn find_client(s: Seq<AccountView>, id: u16) -> int
    decreases s.len(),
{
    if s.len() == 0 {
        -1
    } else if s[0].id == id {
        0
    } else {
        let r = find_client(s.drop_first(), id);
        if r < 0 {
            -1
        } else {
            r + 1
        }
    }
}

/// `find_client` returns -1 exactly when no account matches, and otherwise
/// the first matching position.
pub proof fn lemma_find_client(s: Seq<AccountView>, id: u16)
    ensures
        find_client(s, id) == -1 ==> forall|i: int| 0 <= i < s.len() ==> (#[trigger] s[i]).id != id,
        find_client(s, id) != -1 ==> {
            let j = find_client(s, id);
            &&& 0 <= j < s.len()
            &&& s[j].id == id
            &&& forall|i: int| 0 <= i < j ==> (#[trigger] s[i]).id != id
        },
    decreases s.len(),
{
    if s.len() > 0 && s[0].id != id {
        let t = s.drop_first();
        lemma_find_client(t, id);
        let rt = find_client(t, id);
        if rt == -1 {
            assert forall|i: int| 0 <= i < s.len() implies (#[trigger] s[i]).id != id by {
                if i > 0 {
                    assert(t[i - 1] == s[i]);
                }
            }
        } else {
            assert(s[rt + 1] == t[rt]);
            assert forall|i: int| 0 <= i < rt + 1 implies (#[trigger] s[i]).id != id by {
                if i > 0 {
                    assert(t[i - 1] == s[i]);
                }
            }
        }
    }
}

/// One valid record routed through the ledger:
/// - a deposit or withdrawal whose transaction id was already seen is
///   discarded silently, before anything else;
/// - otherwise such an id is remembered, and the record goes to its
///   client's account;
/// - a deposit for an unknown client creates the account, while any other
///   operation for an unknown client is discarded silently.
pub open spec fn ledger_step(l: LedgerView, r: Record, block_locked: bool) -> LedgerView {
    let tracks_tx = r.op is Deposit || r.op is Withdrawal;
    if tracks_tx && l.seen.contains(r.tx) {
        l
    } else {
        let l1 = if tracks_tx {
            LedgerView { seen: l.seen.insert(r.tx), ..l }
        } else {
            l
        };
        let i = find_client(l1.accounts, r.client);
        if i != -1 {
            LedgerView {
                accounts: l1.accounts.update(i, account_step(l1.accounts[i], r, block_locked)),
                ..l1
            }
        } else if r.op is Deposit {
            LedgerView {
                accounts: l1.accounts.push(
                    new_account(r.client, r.tx, r.amount.unwrap() as int),
                ),
                ..l1
            }
        } else {
            l1
        }
    }
}

/// The one machine limit of the executable ledger: a deposit that would
/// push its existing, unblocked account's total past `u64::MAX`.
pub open spec fn deposit_overflows(l: LedgerView, r: Record, block_locked: bool) -> bool {
    &&& r.op is Deposit
    &&& !l.seen.contains(r.tx)
    &&& {
        let i = find_client(l.accounts, r.client);
        &&& i != -1
        &&& !(block_locked && l.accounts[i].locked)
        &&& l.accounts[i].total + r.amount.unwrap() > u64::MAX
    }
}

/// The only failure the router can report: a balance beyond what the
/// machine's integers can carry.
#[derive(Clone, Copy, Debug, PartialEq, Eq, Structural)]
pub enum LedgerError {
    BalanceOverflow,
}

/// The transaction router. Records enter through
/// [`Ledger::process_record`]; they are assumed valid (see
/// [`Record::spec_valid`]) and the ledger well formed (see
/// [`LedgerView::wf`]), which [`Ledger::new`] establishes and every method
/// preserves.
#[derive(Debug)]
pub struct Ledger {
    pub clients: Vec<Client>,
    pub seen_txs: HashSet<u32>,
}

impl View for Ledger {
    type V = LedgerView;

    open spec fn view(&self) -> LedgerView {
        LedgerView {
            accounts: self.clients@.map_values(|c: Client| c@),
            seen: self.seen_txs@,
        }
    }
}

impl Ledger {
    /// An empty run: no accounts, no transaction id seen.
    pub fn new() -> (l: Ledger)
        ensures
            l@.accounts == Seq::<AccountView>::empty(),
            l@.seen == Set::<u32>::empty(),
            l@.wf(),
    {
        let l = Ledger { clients: Vec::new(), seen_txs: HashSet::new() };
        proof {
            assert(l@.accounts =~= Seq::<AccountView>::empty());
        }
        l
    }

    /// Finds the first account owned by this client, as [`find_client`]
    /// describes it.
    fn find_client_index(&self, id: u16) -> (r: Option<usize>)
        ensures
            match r {
                Some(i) => i < self.clients@.len() && i == find_client(self@.accounts, id),
                None => find_client(self@.accounts, id) == -1,
            },
    {
        proof {
            lemma_find_client(self@.accounts, id);
        }
        let n = self.clients.len();
        let mut i: usize = 0;
        while i < n
            invariant
                i <= n,
                n == self.clients@.len(),
                forall|j: int| 0 <= j < i ==> (#[trigger] self@.accounts[j]).id != id,
            decreases n - i,
        {
            if self.clients[i].id == id {
                proof {
                    lemma_find_client(self@.accounts, id);
                    assert(self@.accounts[i as int].id == id);
                }
                return Some(i);
            }
            i = i + 1;
        }
        None
    }

    /// Routes one valid record, exactly as [`ledger_step`] describes, and
    /// reports the one outcome that transition cannot have on machine
    /// integers: a deposit overflowing its account's total. On that error
    /// nothing has changed.
    pub fn process_record(&mut self, record: &Record, should_block_locked: bool) -> (r: Result<
        (),
        LedgerError,
    >)
        requires
            old(self)@.wf(),
            record.spec_valid(),
        ensures
            final(self)@.wf(),
            r is Ok <==> !deposit_overflows(old(self)@, *record, should_block_locked),
            r is Ok ==> final(self)@ == ledger_step(old(self)@, *record, should_block_locked),
            r is Err ==> final(self)@ == old(self)@ && r->Err_0 is BalanceOverflow,
    {
        let tracks_tx = record.op == Operation::Deposit || record.op == Operation::Withdrawal;
        if tracks_tx && self.seen_txs.contains(&record.tx) {
            return Ok(());
        }
        match self.find_client_index(record.client) {
            Some(i) => {
                if record.op == Operation::Deposit && !(should_block_locked
                    && self.clients[i].locked) {
                    let amount = record.amount.unwrap();
                    if self.clients[i].total > u64::MAX - amount {
                        return Err(LedgerError::BalanceOverflow);
                    }
                }
                if tracks_tx {
                    self.seen_txs.insert(record.tx);
                }
                proof {
                    assert(self.clients@[i as int]@ == old(self)@.accounts[i as int]);
                    assert(old(self)@.accounts[i as int].wf());
                }
                let client = &mut self.clients[i];
                client.handle_record(record, should_block_locked);
                proof {
                    lemma_step_preserves_wf(
                        old(self)@.accounts[i as int],
                        *record,
                        should_block_locked,
                    );
                    assert(self@.accounts =~= old(self)@.accounts.update(
                        i as int,
                        account_step(old(self)@.accounts[i as int], *record, should_block_locked),
                    ));
                    assert(self@ =~= ledger_step(old(self)@, *record, should_block_locked));
                    assert forall|k: int| 0 <= k < self@.accounts.len() implies (
                    #[trigger] self@.accounts[k]).wf() by {
                        if k != i as int {
                            assert(self@.accounts[k] == old(self)@.accounts[k]);
                        }
                    }
                    assert forall|k: int, m: int| 0 <= k < m < self@.accounts.len() implies self@.accounts[k].id
                        != self@.accounts[m].id by {
                        assert(self@.accounts[k].id == old(self)@.accounts[k].id);
                        assert(self@.accounts[m].id == old(self)@.accounts[m].id);
                    }
                }
                Ok(())
            },
            None => {
                if tracks_tx {
                    self.seen_txs.insert(record.tx);
                }
                if record.op == Operation::Deposit {
                    match Client::from_record(record) {
                        Ok(client) => {
                            self.clients.push(client);
                            proof {
                                assert(self@.accounts =~= old(self)@.accounts.push(
                                    new_account(
                                        record.client,
                                        record.tx,
                                        record.amount.unwrap() as int,
                                    ),
                                ));
                                assert(self@ =~= ledger_step(
                                    old(self)@,
                                    *record,
                                    should_block_locked,
                                ));
                                lemma_find_client(old(self)@.accounts, record.client);
                                let n = old(self)@.accounts.len() as int;
                                assert forall|k: int| 0 <= k < self@.accounts.len() implies (
                                #[trigger] self@.accounts[k]).wf() by {
                                    if k < n {
                                        assert(self@.accounts[k] == old(self)@.accounts[k]);
                                    }
                                }
                                assert forall|k: int, m: int|
                                    0 <= k < m < self@.accounts.len() implies self@.accounts[k].id
                                    != self@.accounts[m].id by {
                                    if m < n {
                                        assert(self@.accounts[k] == old(self)@.accounts[k]);
                                        assert(self@.accounts[m] == old(self)@.accounts[m]);
                                    } else {
                                        assert(self@.accounts[k] == old(self)@.accounts[k]);
                                        assert(old(self)@.accounts[k].id != record.client);
                                    }
                                }
                            }
                        },
                        Err(_) => {},
                    }
                } else {
                    proof {
                        assert(self@ =~= ledger_step(old(self)@, *record, should_block_locked));
                    }
                }
                Ok(())
            },
        }
    }
}

} // verus!
