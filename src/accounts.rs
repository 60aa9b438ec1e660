use vstd::prelude::*;

use crate::errors::AccountingError;
use crate::tx::Tx;

verus! {

/// The balances described by a list of (name, balance) entries: a later
/// entry for a name overrides an earlier one.
pub open spec fn entries_map(entries: Seq<(String, u64)>) -> Map<Seq<char>, u64>
    decreases entries.len(),
{
    if entries.len() == 0 {
        Map::empty()
    } else {
        entries_map(entries.drop_last()).insert(entries.last().0@, entries.last().1)
    }
}

/// No two entries share a name.
pub open spec fn unique_names(entries: Seq<(String, u64)>) -> bool {
    forall|i: int, j: int| 0 <= i < j < entries.len() ==> entries[i].0@ != entries[j].0@
}

proof fn lemma_entries_absent(entries: Seq<(String, u64)>, k: Seq<char>)
    requires
        forall|j: int| 0 <= j < entries.len() ==> (#[trigger] entries[j]).0@ != k,
    ensures
        !entries_map(entries).contains_key(k),
    decreases entries.len(),
{
    if entries.len() > 0 {
        lemma_entries_absent(entries.drop_last(), k);
    }
}

proof fn lemma_entries_at(entries: Seq<(String, u64)>, i: int)
    requires
        unique_names(entries),
        0 <= i < entries.len(),
    ensures
        entries_map(entries).contains_key(entries[i].0@),
        entries_map(entries)[entries[i].0@] == entries[i].1,
    decreases entries.len(),
{
    if i < entries.len() - 1 {
        lemma_entries_at(entries.drop_last(), i);
    }
}

proof fn lemma_entries_update(entries: Seq<(String, u64)>, i: int, e: (String, u64))
    requires
        unique_names(entries),
        0 <= i < entries.len(),
        e.0@ == entries[i].0@,
    ensures
        entries_map(entries.update(i, e)) == entries_map(entries).insert(e.0@, e.1),
        unique_names(entries.update(i, e)),
    decreases entries.len(),
{
    let u = entries.update(i, e);
    if i == entries.len() - 1 {
        assert(u.drop_last() =~= entries.drop_last());
        assert(entries_map(u) =~= entries_map(entries).insert(e.0@, e.1));
    } else {
        lemma_entries_update(entries.drop_last(), i, e);
        assert(u.drop_last() =~= entries.drop_last().update(i, e));
        assert(entries_map(u) =~= entries_map(entries).insert(e.0@, e.1));
    }
}

/// Accounts and their current balances.
#[derive(Clone, Debug, PartialEq, Eq)]
pub struct Accounts {
    accounts: Vec<(String, u64)>,
}

impl View for Accounts {
    type V = Map<Seq<char>, u64>;

    closed spec fn view(&self) -> Map<Seq<char>, u64> {
        entries_map(self.accounts@)
    }
}

/// `t` records a deposit of `amount` into the account named `k`.
pub open spec fn is_deposit(t: Tx, k: Seq<char>, amount: u64) -> bool {
    t matches Tx::Deposit { account, amount: a } && account@ == k && a == amount
}

/// `t` records a withdrawal of `amount` from the account named `k`.
pub open spec fn is_withdraw(t: Tx, k: Seq<char>, amount: u64) -> bool {
    t matches Tx::Withdraw { account, amount: a } && account@ == k && a == amount
}

/// `e` reports that the account named `k` does not exist.
pub open spec fn is_not_found(e: AccountingError, k: Seq<char>) -> bool {
    e matches AccountingError::AccountNotFound(name) && name@ == k
}

/// `e` reports that the account named `k` holds less than `amount`.
pub open spec fn is_under_funded(e: AccountingError, k: Seq<char>, amount: u64) -> bool {
    e matches AccountingError::AccountUnderFunded(name, a) && name@ == k && a == amount
}

/// `e` reports that depositing `amount` into the account named `k` would overflow.
pub open spec fn is_over_funded(e: AccountingError, k: Seq<char>, amount: u64) -> bool {
    e matches AccountingError::AccountOverFunded(name, a) && name@ == k && a == amount
}

/// The balance of `k` in `m`, 0 when it has no account.
pub open spec fn balance_of(m: Map<Seq<char>, u64>, k: Seq<char>) -> int {
    if m.contains_key(k) { m[k] as int } else { 0 }
}

/// Whether depositing `amount` into `k` in `m` would overflow.
pub open spec fn deposit_overflows(m: Map<Seq<char>, u64>, k: Seq<char>, amount: u64) -> bool {
    balance_of(m, k) + amount > u64::MAX
}

/// Whether withdrawing `amount` from `k` in `m` succeeds.
pub open spec fn can_withdraw(m: Map<Seq<char>, u64>, k: Seq<char>, amount: u64) -> bool {
    m.contains_key(k) && m[k] >= amount
}

impl Default for Accounts {
    fn default() -> (r: Self)
        ensures
            r.wf(),
            r@ == Map::<Seq<char>, u64>::empty(),
    {
        Accounts::new()
    }
}

impl Accounts {
    /// Each name has at most one entry.
    pub closed spec fn wf(&self) -> bool {
        unique_names(self.accounts@)
    }

    /// Returns a ledger without accounts.
    pub fn new() -> (r: Self)
        ensures
            r.wf(),
            r@ == Map::<Seq<char>, u64>::empty(),
    {
        Accounts { accounts: Vec::new() }
    }

    /// The index of the entry for `key`, if there is one.
    fn find(&self, key: &String) -> (r: Option<usize>)
        requires
            self.wf(),
        ensures
            match r {
                Some(i) => i < self.accounts@.len() && self.accounts@[i as int].0@ == key@
                    && self@.contains_key(key@) && self@[key@] == self.accounts@[i as int].1,
                None => !self@.contains_key(key@),
            },
    {
        let mut i: usize = 0;
        while i < self.accounts.len()
            invariant
                i <= self.accounts@.len(),
                self.wf(),
                forall|j: int| 0 <= j < i ==> (#[trigger] self.accounts@[j]).0@ != key@,
            decreases self.accounts.len() - i,
        {
            if self.accounts[i].0 == *key {
                proof {
                    lemma_entries_at(self.accounts@, i as int);
                }
                return Some(i);
            }
            i = i + 1;
        }
        proof {
            lemma_entries_absent(self.accounts@, key@);
        }
        None
    }

    /// The balance of the account `signer`, if it exists.
    pub fn balance(&self, signer: &str) -> (r: Option<u64>)
        requires
            self.wf(),
        ensures
            r == (if self@.contains_key(signer@) { Some(self@[signer@]) } else { None::<u64> }),
    {
        let key = signer.to_owned();
        match self.find(&key) {
            Some(i) => Some(self.accounts[i].1),
            None => None,
        }
    }

    /// Deposits `amount` into the account `signer`, opening it if needed.
    ///
    /// # Errors
    /// - the new balance would not fit in a `u64`; nothing changes then
    pub fn deposit(&mut self, signer: &str, amount: u64) -> (r: Result<Tx, AccountingError>)
        requires
            old(self).wf(),
        ensures
            final(self).wf(),
            deposit_overflows(old(self)@, signer@, amount) ==> {
                &&& r matches Err(e) && is_over_funded(e, signer@, amount)
                &&& final(self)@ == old(self)@
            },
            !deposit_overflows(old(self)@, signer@, amount) ==> {
                &&& r matches Ok(t) && is_deposit(t, signer@, amount)
                &&& final(self)@ == old(self)@.insert(signer@, (balance_of(old(self)@, signer@) + amount) as u64)
            },
    {
        let key = signer.to_owned();
        match self.find(&key) {
            Some(i) => {
                let current = self.accounts[i].1;
                match current.checked_add(amount) {
                    Some(new_amount) => {
                        let entry = (key.clone(), new_amount);
                        proof {
                            lemma_entries_update(self.accounts@, i as int, entry);
                        }
                        self.accounts.set(i, entry);
                        Ok(Tx::Deposit { account: key, amount })
                    },
                    None => Err(AccountingError::AccountOverFunded(key, amount)),
                }
            },
            None => {
                let entry = (key.clone(), amount);
                proof {
                    assert forall|j: int| 0 <= j < self.accounts@.len() implies (#[trigger] self.accounts@[j]).0@ != key@ by {
                        if self.accounts@[j].0@ == key@ {
                            lemma_entries_at(self.accounts@, j);
                        }
                    }
                }
                self.accounts.push(entry);
                assert(self.accounts@.drop_last() =~= old(self).accounts@);
                Ok(Tx::Deposit { account: key, amount })
            },
        }
    }

    /// Withdraws `amount` from the account `signer`.
    ///
    /// # Errors
    /// - the account does not exist
    /// - the account holds less than `amount`
    ///
    /// Nothing changes on an error.
    pub fn withdraw(&mut self, signer: &str, amount: u64) -> (r: Result<Tx, AccountingError>)
        requires
            old(self).wf(),
        ensures
            final(self).wf(),
            !old(self)@.contains_key(signer@) ==> {
                &&& r matches Err(e) && is_not_found(e, signer@)
                &&& final(self)@ == old(self)@
            },
            old(self)@.contains_key(signer@) && old(self)@[signer@] < amount ==> {
                &&& r matches Err(e) && is_under_funded(e, signer@, amount)
                &&& final(self)@ == old(self)@
            },
            can_withdraw(old(self)@, signer@, amount) ==> {
                &&& r matches Ok(t) && is_withdraw(t, signer@, amount)
                &&& final(self)@ == old(self)@.insert(signer@, (old(self)@[signer@] - amount) as u64)
            },
    {
        let key = signer.to_owned();
        match self.find(&key) {
            Some(i) => {
                let current = self.accounts[i].1;
                match current.checked_sub(amount) {
                    Some(new_amount) => {
                        let entry = (key.clone(), new_amount);
                        proof {
                            lemma_entries_update(self.accounts@, i as int, entry);
                        }
                        self.accounts.set(i, entry);
                        Ok(Tx::Withdraw { account: key, amount })
                    },
                    None => Err(AccountingError::AccountUnderFunded(key, amount)),
                }
            },
            None => Err(AccountingError::AccountNotFound(key)),
        }
    }

    /// Withdraws `amount` from `sender` and deposits it into `recipient`.
    ///
    /// # Errors
    /// - `sender` does not exist, or holds less than `amount`: nothing changes
    /// - the deposit would overflow `recipient`'s balance: the withdrawal
    ///   from `sender` has already taken effect
    pub fn send(&mut self, sender: &str, recipient: &str, amount: u64) -> (r: Result<(Tx, Tx), AccountingError>)
        requires
            old(self).wf(),
        ensures
            final(self).wf(),
            !old(self)@.contains_key(sender@) ==> {
                &&& r matches Err(e) && is_not_found(e, sender@)
                &&& final(self)@ == old(self)@
            },
            old(self)@.contains_key(sender@) && old(self)@[sender@] < amount ==> {
                &&& r matches Err(e) && is_under_funded(e, sender@, amount)
                &&& final(self)@ == old(self)@
            },
            can_withdraw(old(self)@, sender@, amount) ==> {
                let mid = old(self)@.insert(sender@, (old(self)@[sender@] - amount) as u64);
                &&& deposit_overflows(mid, recipient@, amount) ==> {
                    &&& r matches Err(e) && is_over_funded(e, recipient@, amount)
                    &&& final(self)@ == mid
                }
                &&& !deposit_overflows(mid, recipient@, amount) ==> {
                    &&& r matches Ok(p) && is_withdraw(p.0, sender@, amount) && is_deposit(p.1, recipient@, amount)
                    &&& final(self)@ == mid.insert(recipient@, (balance_of(mid, recipient@) + amount) as u64)
                }
            },
    {
        let withdrawn = match self.withdraw(sender, amount) {
            Ok(t) => t,
            Err(e) => return Err(e),
        };
        let deposited = match self.deposit(recipient, amount) {
            Ok(t) => t,
            Err(e) => return Err(e),
        };
        Ok((withdrawn, deposited))
    }
}

} // verus!
