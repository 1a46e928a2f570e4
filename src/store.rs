use vstd::prelude::*;

verus! {

/// Failures reported by the ledger store.
#[derive(Clone, Copy, Debug, PartialEq, Eq, Structural)]
pub enum LedgerError {
    /// The account identifier is not known to the store.
    AccountNotFound,
    /// A balance that is negative (or out of the numeric range) was about to be stored.
    InvalidBalance,
    /// An account with this identifier was already opened.
    DuplicateAccount,
}

/// One stored record: an account identifier and its balance.
#[derive(Clone, Copy, Debug)]
struct Account {
    id: u64,
    balance: i64,
}

/// Every balance of a ledger view is non-negative and fits the stored width.
pub open spec fn balances_valid(m: Map<u64, int>) -> bool {
    forall|id: u64| #[trigger] m.contains_key(id) ==> 0 <= m[id] <= i64::MAX
}

/// The result that `get_balance` gives on a ledger whose view is `m`.
pub open spec fn balance_result(m: Map<u64, int>, id: u64) -> Result<i64, LedgerError> {
    if m.contains_key(id) {
        Ok(m[id] as i64)
    } else {
        Err(LedgerError::AccountNotFound)
    }
}

/// A keyed store of account balances. Reads and writes of one balance are
/// the only primitives; composing them is left to the withdrawers.
pub struct LedgerStore {
    accounts: Vec<Account>,
}

spec fn has_id(s: Seq<Account>, id: u64) -> bool {
    exists|i: int| 0 <= i < s.len() && (#[trigger] s[i]).id == id
}

spec fn ids_unique(s: Seq<Account>) -> bool {
    forall|i: int, j: int|
        0 <= i < s.len() && 0 <= j < s.len() && (#[trigger] s[i]).id == (#[trigger] s[j]).id
            ==> i == j
}

spec fn seq_view(s: Seq<Account>) -> Map<u64, int> {
    Map::new(
        |id: u64| has_id(s, id),
        |id: u64| s[choose|i: int| 0 <= i < s.len() && (#[trigger] s[i]).id == id].balance as int,
    )
}

proof fn lemma_lookup(s: Seq<Account>, i: int)
    requires
        ids_unique(s),
        0 <= i < s.len(),
    ensures
        seq_view(s).contains_key(s[i].id),
        seq_view(s)[s[i].id] == s[i].balance as int,
{
    let id = s[i].id;
    assert(has_id(s, id));
    let c = choose|c: int| 0 <= c < s.len() && (#[trigger] s[c]).id == id;
    assert(s[c].id == s[i].id);
}

proof fn lemma_update(s: Seq<Account>, i: int, a: Account)
    requires
        ids_unique(s),
        0 <= i < s.len(),
        a.id == s[i].id,
    ensures
        ids_unique(s.update(i, a)),
        seq_view(s.update(i, a)) == seq_view(s).insert(a.id, a.balance as int),
{
    let t = s.update(i, a);
    assert forall|p: int, q: int|
        0 <= p < t.len() && 0 <= q < t.len() && (#[trigger] t[p]).id == (#[trigger] t[q]).id
            implies p == q by {
        assert(t[p].id == s[p].id);
        assert(t[q].id == s[q].id);
    }
    let lhs = seq_view(t);
    let rhs = seq_view(s).insert(a.id, a.balance as int);
    assert forall|id: u64| lhs.contains_key(id) <==> rhs.contains_key(id) by {
        if has_id(s, id) {
            let w = choose|w: int| 0 <= w < s.len() && (#[trigger] s[w]).id == id;
            assert(t[w].id == id);
        }
        if has_id(t, id) {
            let w = choose|w: int| 0 <= w < t.len() && (#[trigger] t[w]).id == id;
            assert(s[w].id == id);
        }
    }
    assert forall|id: u64| lhs.contains_key(id) implies lhs[id] == rhs[id] by {
        let w = choose|w: int| 0 <= w < t.len() && (#[trigger] t[w]).id == id;
        assert(s[w].id == id);
        lemma_lookup(t, w);
        if id != a.id {
            lemma_lookup(s, w);
        }
    }
    assert(lhs =~= rhs);
}

proof fn lemma_push(s: Seq<Account>, a: Account)
    requires
        ids_unique(s),
        !has_id(s, a.id),
    ensures
        ids_unique(s.push(a)),
        seq_view(s.push(a)) == seq_view(s).insert(a.id, a.balance as int),
{
    let t = s.push(a);
    assert forall|p: int, q: int|
        0 <= p < t.len() && 0 <= q < t.len() && (#[trigger] t[p]).id == (#[trigger] t[q]).id
            implies p == q by {
        if p < s.len() {
            assert(t[p] == s[p]);
        }
        if q < s.len() {
            assert(t[q] == s[q]);
        }
    }
    let lhs = seq_view(t);
    let rhs = seq_view(s).insert(a.id, a.balance as int);
    assert forall|id: u64| lhs.contains_key(id) <==> rhs.contains_key(id) by {
        if has_id(s, id) {
            let w = choose|w: int| 0 <= w < s.len() && (#[trigger] s[w]).id == id;
            assert(t[w].id == id);
        }
        if id == a.id {
            assert(t[s.len() as int].id == id);
        }
        if has_id(t, id) {
            let w = choose|w: int| 0 <= w < t.len() && (#[trigger] t[w]).id == id;
            if w < s.len() {
                assert(s[w].id == id);
            }
        }
    }
    assert forall|id: u64| lhs.contains_key(id) implies lhs[id] == rhs[id] by {
        let w = choose|w: int| 0 <= w < t.len() && (#[trigger] t[w]).id == id;
        lemma_lookup(t, w);
        if w < s.len() {
            assert(s[w] == t[w]);
            lemma_lookup(s, w);
        }
    }
    assert(lhs =~= rhs);
}

impl LedgerStore {
    /// The store as a map from account identifier to balance.
    pub closed spec fn view(&self) -> Map<u64, int> {
        seq_view(self.accounts@)
    }

    /// Identifiers are unique and no stored balance is negative.
    pub closed spec fn wf(&self) -> bool {
        &&& ids_unique(self.accounts@)
        &&& forall|i: int|
            0 <= i < self.accounts@.len() ==> (#[trigger] self.accounts@[i]).balance >= 0
    }

    /// A well-formed store holds only valid balances.
    pub proof fn lemma_wf_balances_valid(&self)
        requires
            self.wf(),
        ensures
            balances_valid(self@),
    {
        assert forall|id: u64| #[trigger] self@.contains_key(id) implies 0 <= self@[id] <= i64::MAX by {
            let w = choose|w: int|
                0 <= w < self.accounts@.len() && (#[trigger] self.accounts@[w]).id == id;
            lemma_lookup(self.accounts@, w);
        }
    }

    /// An empty store.
    pub fn new() -> (r: LedgerStore)
        ensures
            r.wf(),
            r@ == Map::<u64, int>::empty(),
    {
        let r = LedgerStore { accounts: Vec::new() };
        assert(r@ =~= Map::<u64, int>::empty());
        r
    }

    /// A ready ledger that holds one account with the given starting balance.
    pub fn with_account(id: u64, balance: i64) -> (r: Result<LedgerStore, LedgerError>)
        ensures
            balance < 0 ==> r == Err::<LedgerStore, LedgerError>(LedgerError::InvalidBalance),
            balance >= 0 ==> r is Ok,
            r matches Ok(s) ==> s.wf() && s@ == map![id => balance as int],
    {
        let mut s = LedgerStore::new();
        match s.open_account(id, balance) {
            Ok(()) => {
                assert(s@ =~= map![id => balance as int]);
                Ok(s)
            },
            Err(e) => Err(e),
        }
    }

    fn find(&self, id: u64) -> (r: Option<usize>)
        requires
            self.wf(),
        ensures
            match r {
                Some(i) => i < self.accounts@.len() && self.accounts@[i as int].id == id,
                None => !self@.contains_key(id),
            },
    {
        let mut i: usize = 0;
        while i < self.accounts.len()
            invariant
                i <= self.accounts@.len(),
                forall|j: int| 0 <= j < i ==> (#[trigger] self.accounts@[j]).id != id,
            decreases self.accounts@.len() - i,
        {
            if self.accounts[i].id == id {
                return Some(i);
            }
            i = i + 1;
        }
        None
    }

    /// Whether an account with this identifier exists.
    pub fn contains(&self, id: u64) -> (r: bool)
        requires
            self.wf(),
        ensures
            r == self@.contains_key(id),
    {
        match self.find(id) {
            Some(i) => {
                proof {
                    lemma_lookup(self.accounts@, i as int);
                }
                true
            },
            None => false,
        }
    }

    /// Opens a new account with a starting balance.
    pub fn open_account(&mut self, id: u64, balance: i64) -> (r: Result<(), LedgerError>)
        requires
            old(self).wf(),
        ensures
            final(self).wf(),
            r == (if balance < 0 {
                Err(LedgerError::InvalidBalance)
            } else if old(self)@.contains_key(id) {
                Err(LedgerError::DuplicateAccount)
            } else {
                Ok(())
            }),
            final(self)@ == (if r is Ok {
                old(self)@.insert(id, balance as int)
            } else {
                old(self)@
            }),
    {
        if balance < 0 {
            return Err(LedgerError::InvalidBalance);
        }
        match self.find(id) {
            Some(i) => {
                proof {
                    lemma_lookup(self.accounts@, i as int);
                }
                Err(LedgerError::DuplicateAccount)
            },
            None => {
                let a = Account { id, balance };
                proof {
                    lemma_push(self.accounts@, a);
                }
                self.accounts.push(a);
                Ok(())
            },
        }
    }

    /// The stored balance of an account.
    pub fn get_balance(&self, id: u64) -> (r: Result<i64, LedgerError>)
        requires
            self.wf(),
        ensures
            r == balance_result(self@, id),
    {
        match self.find(id) {
            Some(i) => {
                proof {
                    lemma_lookup(self.accounts@, i as int);
                }
                Ok(self.accounts[i].balance)
            },
            None => Err(LedgerError::AccountNotFound),
        }
    }

    /// Overwrites the stored balance of an account.
    pub fn set_balance(&mut self, id: u64, new_balance: i64) -> (r: Result<(), LedgerError>)
        requires
            old(self).wf(),
        ensures
            final(self).wf(),
            r == (if !old(self)@.contains_key(id) {
                Err(LedgerError::AccountNotFound)
            } else if new_balance < 0 {
                Err(LedgerError::InvalidBalance)
            } else {
                Ok(())
            }),
            final(self)@ == (if r is Ok {
                old(self)@.insert(id, new_balance as int)
            } else {
                old(self)@
            }),
    {
        match self.find(id) {
            None => Err(LedgerError::AccountNotFound),
            Some(i) => {
                proof {
                    lemma_lookup(self.accounts@, i as int);
                }
                if new_balance < 0 {
                    return Err(LedgerError::InvalidBalance);
                }
                let a = Account { id, balance: new_balance };
                proof {
                    lemma_update(self.accounts@, i as int, a);
                }
                self.accounts.set(i, a);
                Ok(())
            },
        }
    }
}

} // verus!
