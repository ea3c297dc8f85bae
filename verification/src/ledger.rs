//! The account registry.
//!
//! A [`Ledger`] owns one [`Account`] per client id, created lazily the first
//! time a transaction references the client.  [`Ledger::route`] delivers one
//! event to its account; [`Ledger::snapshot_all`] emits one snapshot per
//! account in ascending client order; [`replay`] runs a whole event sequence
//! from an empty registry.

use vstd::prelude::*;

verus! {

use crate::engine::Account;
use crate::engine::AccountInfo;
use crate::engine::AccountModel;
use crate::engine::EngineError;
use crate::engine::Transaction;
use crate::engine::step;

/// The keyed collection of accounts, sorted by client id.
pub struct Ledger {
    pub accounts: Vec<Account>,
}

pub open spec fn accounts_map(s: Seq<Account>) -> Map<u16, AccountModel>
    decreases s.len(),
{
    if s.len() == 0 {
        Map::empty()
    } else {
        accounts_map(s.drop_last()).insert(s.last().client.0, s.last().model())
    }
}

pub open spec fn unique_clients(s: Seq<Account>) -> bool {
    forall|i: int, j: int| 0 <= i < j < s.len() ==> s[i].client.0 != s[j].client.0
}

proof fn lemma_accounts_map_contains(s: Seq<Account>, c: u16)
    ensures
        accounts_map(s).dom().contains(c) <==> exists|i: int|
            0 <= i < s.len() && s[i].client.0 == c,
    decreases s.len(),
{
    if s.len() > 0 {
        lemma_accounts_map_contains(s.drop_last(), c);
        if s.last().client.0 == c {
            assert(s[s.len() - 1].client.0 == c);
        } else {
            if accounts_map(s).dom().contains(c) {
                let i = choose|i: int| 0 <= i < s.drop_last().len() && s.drop_last()[i].client.0
                    == c;
                assert(s[i].client.0 == c);
            }
            if exists|i: int| 0 <= i < s.len() && s[i].client.0 == c {
                let i = choose|i: int| 0 <= i < s.len() && s[i].client.0 == c;
                assert(i < s.len() - 1);
                assert(s.drop_last()[i].client.0 == c);
            }
        }
    }
}

proof fn lemma_accounts_map_get(s: Seq<Account>, i: int)
    requires
        unique_clients(s),
        0 <= i < s.len(),
    ensures
        accounts_map(s).dom().contains(s[i].client.0),
        accounts_map(s)[s[i].client.0] == s[i].model(),
    decreases s.len(),
{
    if i < s.len() - 1 {
        assert(unique_clients(s.drop_last()));
        lemma_accounts_map_get(s.drop_last(), i);
        assert(s.drop_last()[i] == s[i]);
        assert(s.last().client.0 != s[i].client.0);
    }
}

proof fn lemma_accounts_map_update(s: Seq<Account>, i: int, a: Account)
    requires
        unique_clients(s),
        0 <= i < s.len(),
        a.client.0 == s[i].client.0,
    ensures
        accounts_map(s.update(i, a)) =~= accounts_map(s).insert(a.client.0, a.model()),
    decreases s.len(),
{
    let c = a.client.0;
    if i == s.len() - 1 {
        assert(s.update(i, a).drop_last() =~= s.drop_last());
        assert(s.update(i, a).last() == a);
        assert(accounts_map(s).insert(c, a.model()) =~= accounts_map(s.drop_last()).insert(c,
            a.model()));
    } else {
        assert(s.update(i, a).drop_last() =~= s.drop_last().update(i, a));
        assert(unique_clients(s.drop_last()));
        assert(s.drop_last()[i] == s[i]);
        lemma_accounts_map_update(s.drop_last(), i, a);
        let lc = s.last().client.0;
        assert(lc != c);
        assert(s.update(i, a).last() == s.last());
        assert(accounts_map(s.drop_last()).insert(c, a.model()).insert(lc, s.last().model())
            =~= accounts_map(s.drop_last()).insert(lc, s.last().model()).insert(c, a.model()));
    }
}

proof fn lemma_accounts_map_insert(s: Seq<Account>, i: int, a: Account)
    requires
        0 <= i <= s.len(),
        forall|j: int| 0 <= j < s.len() ==> s[j].client.0 != a.client.0,
    ensures
        accounts_map(s.insert(i, a)) =~= accounts_map(s).insert(a.client.0, a.model()),
    decreases s.len(),
{
    let c = a.client.0;
    if i == s.len() {
        assert(s.insert(i, a).drop_last() =~= s);
        assert(s.insert(i, a).last() == a);
    } else {
        assert(s.insert(i, a).drop_last() =~= s.drop_last().insert(i, a));
        assert(forall|j: int|
            0 <= j < s.drop_last().len() ==> s.drop_last()[j].client.0 != c);
        lemma_accounts_map_insert(s.drop_last(), i, a);
        let lc = s.last().client.0;
        assert(s[s.len() - 1].client.0 != c);
        assert(lc != c);
        assert(s.insert(i, a).last() == s.last());
        assert(accounts_map(s.drop_last()).insert(c, a.model()).insert(lc, s.last().model())
            =~= accounts_map(s.drop_last()).insert(lc, s.last().model()).insert(c, a.model()));
    }
}

/// What one event does to the whole registry: the client's account is looked
/// up or created fresh, then stepped.
pub open spec fn ledger_step(lm: Map<u16, AccountModel>, t: Transaction) -> Result<
    Map<u16, AccountModel>,
    EngineError,
> {
    let c = t.client.0;
    let base = if lm.dom().contains(c) {
        lm[c]
    } else {
        AccountModel::init(c)
    };
    match step(base, t) {
        Ok(m2) => Ok(lm.insert(c, m2)),
        Err(e) => Err(e),
    }
}

/// A whole event sequence applied in order; the first fatal error aborts.
pub open spec fn replay_steps(lm: Map<u16, AccountModel>, ts: Seq<Transaction>) -> Result<
    Map<u16, AccountModel>,
    EngineError,
> decreases ts.len(),
{
    if ts.len() == 0 {
        Ok(lm)
    } else {
        match ledger_step(lm, ts[0]) {
            Ok(lm2) => replay_steps(lm2, ts.drop_first()),
            Err(e) => Err(e),
        }
    }
}

/// One snapshot row faithfully renders one account model: same client and
/// lock flag, each balance canonical and exact in value.
pub open spec fn snapshot_matches(info: AccountInfo, m: AccountModel) -> bool {
    &&& info.client.0 == m.client
    &&& info.locked == m.locked
    &&& info.available.wf() && info.available.is_normal() && info.available.units() == m.available
    &&& info.held.wf() && info.held.is_normal() && info.held.units() == m.held
    &&& info.total.wf() && info.total.is_normal() && info.total.units() == m.total
}

impl Ledger {
    pub open spec fn wf(self) -> bool {
        &&& forall|i: int| 0 <= i < self.accounts@.len() ==> (#[trigger] self.accounts@[i]).wf()
        &&& forall|i: int, j: int|
            0 <= i < j < self.accounts@.len() ==> self.accounts@[i].client.0
                < self.accounts@[j].client.0
    }

    /// The mathematical state of the registry: client id to account model.
    pub open spec fn model(self) -> Map<u16, AccountModel> {
        accounts_map(self.accounts@)
    }

    pub fn new() -> (r: Ledger)
        ensures
            r.wf(),
            r.model() =~= Map::<u16, AccountModel>::empty(),
    {
        Ledger { accounts: Vec::new() }
    }

    /// Deliver one event to its client's account, creating the account on
    /// first reference.  The registry afterwards is exactly what
    /// [`ledger_step`] says; a fatal error leaves at most a fresh, untouched
    /// account behind.
    #[verifier::rlimit(60)]
    pub fn route(&mut self, transaction: Transaction) -> (r: Result<(), EngineError>)
        requires
            old(self).wf(),
            transaction.wf(),
        ensures
            final(self).wf(),
            match ledger_step(old(self).model(), transaction) {
                Ok(lm2) => r == Ok::<(), EngineError>(()) && final(self).model() =~= lm2,
                Err(e) => r == Err::<(), EngineError>(e) && final(self).model() =~= (
                if old(self).model().dom().contains(transaction.client.0) {
                    old(self).model()
                } else {
                    old(self).model().insert(transaction.client.0, AccountModel::init(
                        transaction.client.0))
                }),
            },
    {
        let c = transaction.client;
        let mut i: usize = 0;
        while i < self.accounts.len() && self.accounts[i].client.0 < c.0
            invariant
                i <= self.accounts@.len(),
                forall|j: int| 0 <= j < i ==> self.accounts@[j].client.0 < c.0,
                self.wf(),
                c == transaction.client,
            decreases self.accounts@.len() - i,
        {
            i = i + 1;
        }
        proof {
            assert(unique_clients(self.accounts@));
        }
        if i == self.accounts.len() || self.accounts[i].client.0 > c.0 {
            proof {
                assert(forall|j: int|
                    0 <= j < self.accounts@.len() ==> self.accounts@[j].client.0 != c.0) by {
                    assert(forall|j: int|
                        i <= j < self.accounts@.len() ==> self.accounts@[i as int].client.0
                            <= self.accounts@[j].client.0);
                }
                lemma_accounts_map_contains(self.accounts@, c.0);
            }
            let acct = Account::new(c);
            proof {
                lemma_accounts_map_insert(self.accounts@, i as int, acct);
            }
            self.accounts.insert(i, acct);
        } else {
            proof {
                lemma_accounts_map_get(self.accounts@, i as int);
            }
        }
        // The account for `c` now sits at index `i`.
        let ghost mid: Seq<Account> = self.accounts@;
        proof {
            assert(unique_clients(self.accounts@));
            lemma_accounts_map_get(self.accounts@, i as int);
        }
        let mut acct = self.accounts.remove(i);
        let res = acct.handle(transaction);
        proof {
            assert(mid.remove(i as int).insert(i as int, acct) =~= mid.update(i as int, acct));
        }
        self.accounts.insert(i, acct);
        proof {
            assert(self.accounts@ =~= mid.update(i as int, acct));
            assert(unique_clients(mid));
            lemma_accounts_map_update(mid, i as int, acct);
        }
        res
    }

    /// One snapshot per account, ordered by ascending client id; every
    /// account of the registry appears exactly once, rendered canonically.
    pub fn snapshot_all(&self) -> (r: Vec<AccountInfo>)
        requires
            self.wf(),
        ensures
            r@.len() == self.accounts@.len(),
            forall|i: int, j: int| 0 <= i < j < r@.len() ==> r@[i].client.0 < r@[j].client.0,
            forall|i: int|
                0 <= i < r@.len() ==> self.model().dom().contains(
                    (#[trigger] r@[i]).client.0) && snapshot_matches(r@[i], self.model()[
                    r@[i].client.0
                ]),
            forall|c: u16|
                self.model().dom().contains(c) ==> exists|i: int|
                    0 <= i < r@.len() && (#[trigger] r@[i]).client.0 == c,
    {
        let mut out: Vec<AccountInfo> = Vec::new();
        let mut i: usize = 0;
        while i < self.accounts.len()
            invariant
                self.wf(),
                i <= self.accounts@.len(),
                out@.len() == i,
                forall|j: int|
                    0 <= j < i ==> (#[trigger] out@[j]).client == self.accounts@[j].client,
                forall|j: int|
                    0 <= j < i ==> snapshot_matches(#[trigger] out@[j], self.accounts@[j].model()),
            decreases self.accounts@.len() - i,
        {
            let info = self.accounts[i].info();
            out.push(info);
            i = i + 1;
        }
        proof {
            assert(unique_clients(self.accounts@));
            assert forall|j: int| 0 <= j < out@.len() implies self.model().dom().contains(
                (#[trigger] out@[j]).client.0) && snapshot_matches(out@[j], self.model()[
                out@[j].client.0
            ]) by {
                lemma_accounts_map_get(self.accounts@, j);
            }
            assert forall|c: u16| self.model().dom().contains(c) implies exists|i2: int|
                0 <= i2 < out@.len() && (#[trigger] out@[i2]).client.0 == c by {
                lemma_accounts_map_contains(self.accounts@, c);
                let w = choose|w: int| 0 <= w < self.accounts@.len() && self.accounts@[w].client.0
                    == c;
                assert(out@[w].client.0 == c);
            }
        }
        out
    }
}

/// Replay a whole event log from an empty registry and return the final
/// snapshot rows, sorted by client id.  The rows render exactly the registry
/// that [`replay_steps`] computes; the first fatal error aborts the replay.
pub fn replay(transactions: Vec<Transaction>) -> (r: Result<Vec<AccountInfo>, EngineError>)
    requires
        forall|i: int| 0 <= i < transactions@.len() ==> (#[trigger] transactions@[i]).wf(),
    ensures
        match replay_steps(Map::empty(), transactions@) {
            Ok(fm) => match r {
                Ok(rows) => {
                    &&& rows@.len() == fm.dom().len()
                    &&& forall|i: int, j: int|
                        0 <= i < j < rows@.len() ==> rows@[i].client.0 < rows@[j].client.0
                    &&& forall|i: int|
                        0 <= i < rows@.len() ==> fm.dom().contains((#[trigger] rows@[i]).client.0)
                            && snapshot_matches(rows@[i], fm[rows@[i].client.0])
                    &&& forall|c: u16|
                        fm.dom().contains(c) ==> exists|i: int|
                            0 <= i < rows@.len() && (#[trigger] rows@[i]).client.0 == c
                },
                Err(_) => false,
            },
            Err(e) => r == Err::<Vec<AccountInfo>, EngineError>(e),
        },
{
    let mut ledger = Ledger::new();
    let n = transactions.len();
    let mut i: usize = 0;
    proof {
        assert(transactions@.skip(0) =~= transactions@);
    }
    while i < n
        invariant
            ledger.wf(),
            i <= n,
            n == transactions@.len(),
            forall|k: int| 0 <= k < transactions@.len() ==> (#[trigger] transactions@[k]).wf(),
            replay_steps(Map::empty(), transactions@) == replay_steps(ledger.model(),
                transactions@.skip(i as int)),
        decreases n - i,
    {
        let t = transactions[i];
        let ghost pre: Map<u16, AccountModel> = ledger.model();
        let res = ledger.route(t);
        proof {
            assert(transactions@.skip(i as int)[0] == t);
            assert(transactions@.skip(i as int).drop_first() =~= transactions@.skip(i as int + 1));
        }
        match res {
            Ok(()) => {
                proof {
                    let lm2 = ledger_step(pre, t)->Ok_0;
                    assert(ledger.model() =~= lm2);
                    assert(replay_steps(pre, transactions@.skip(i as int)) == replay_steps(lm2,
                        transactions@.skip(i as int + 1)));
                }
            },
            Err(e) => {
                proof {
                    assert(replay_steps(pre, transactions@.skip(i as int)) == Err::<
                        Map<u16, AccountModel>,
                        EngineError,
                    >(e));
                }
                return Err(e);
            },
        }
        i = i + 1;
    }
    proof {
        assert(transactions@.skip(n as int) =~= Seq::<Transaction>::empty());
        assert(replay_steps(Map::empty(), transactions@) == Ok::<
            Map<u16, AccountModel>,
            EngineError,
        >(ledger.model()));
    }
    let rows = ledger.snapshot_all();
    proof {
        lemma_sorted_rows_count(rows@, ledger.model());
    }
    Ok(rows)
}

/// Distinct sorted rows that cover exactly the keys of a map are as many as
/// the map has keys.
proof fn lemma_sorted_rows_count(rows: Seq<AccountInfo>, fm: Map<u16, AccountModel>)
    requires
        forall|i: int|
            0 <= i < rows.len() ==> fm.dom().contains((#[trigger] rows[i]).client.0),
        forall|c: u16|
            fm.dom().contains(c) ==> exists|i: int|
                0 <= i < rows.len() && (#[trigger] rows[i]).client.0 == c,
        forall|i: int, j: int| 0 <= i < j < rows.len() ==> rows[i].client.0 < rows[j].client.0,
    ensures
        rows.len() == fm.dom().len(),
{
    let keys = Seq::new(rows.len(), |i: int| rows[i].client.0);
    assert(forall|i: int, j: int| 0 <= i < j < keys.len() ==> keys[i] != keys[j]);
    keys.unique_seq_to_set();
    assert(keys.to_set() =~= fm.dom()) by {
        assert(forall|c: u16| #[trigger] keys.to_set().contains(c) ==> fm.dom().contains(c));
        assert forall|c: u16| fm.dom().contains(c) implies keys.to_set().contains(c) by {
            let i = choose|i: int| 0 <= i < rows.len() && rows[i].client.0 == c;
            assert(keys[i] == c);
        }
    }
}

} // verus!

