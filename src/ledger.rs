use vstd::prelude::*;
use crate::types::Balance;

verus! {

/// What one user holds of one asset: `balance` in all, of which
/// `locked_balance` is escrowed against open orders.
#[derive(Debug)]
pub struct BalanceEntry {
    pub user_id: String,
    pub ticker: String,
    pub balance: u64,
    pub locked_balance: u64,
}

/// Why a ledger operation was refused. Nothing changes when one is.
#[derive(Clone, Copy, Debug, PartialEq, Eq, Structural)]
pub enum LedgerError {
    /// The user holds no balance of the asset.
    UnknownAccount,
    /// The account exists already.
    DuplicateAccount,
    /// The asset's total over all users would not fit in 64 bits.
    SupplyOverflow,
    /// Less is locked than the operation releases: the escrow records are
    /// corrupt.
    LockedShortfall,
}

/// An account key: a user and an asset.
pub type AccountKey = (Seq<char>, Seq<char>);

pub open spec fn key_at(s: Seq<BalanceEntry>, i: int, u: Seq<char>, t: Seq<char>) -> bool {
    0 <= i < s.len() && s[i].user_id@ == u && s[i].ticker@ == t
}

pub open spec fn has_key(s: Seq<BalanceEntry>, u: Seq<char>, t: Seq<char>) -> bool {
    exists|i: int| key_at(s, i, u, t)
}

pub open spec fn index_of(s: Seq<BalanceEntry>, u: Seq<char>, t: Seq<char>) -> int {
    choose|i: int| key_at(s, i, u, t)
}

/// The total balance of asset `t` over all accounts.
pub open spec fn asset_total(s: Seq<BalanceEntry>, t: Seq<char>) -> int
    decreases s.len(),
{
    if s.len() == 0 {
        0
    } else {
        asset_total(s.drop_last(), t) + if s.last().ticker@ == t { s.last().balance as int } else { 0 }
    }
}

/// The balances of user `u`, in the order of the accounts.
pub open spec fn balances_of(s: Seq<BalanceEntry>, u: Seq<char>) -> Seq<Balance>
    decreases s.len(),
{
    if s.len() == 0 {
        Seq::empty()
    } else if s.last().user_id@ == u {
        balances_of(s.drop_last(), u).push(
            Balance { ticker: s.last().ticker, balance: s.last().balance, locked_balance: s.last().locked_balance },
        )
    } else {
        balances_of(s.drop_last(), u)
    }
}

/// The ledger as a map from (user, asset) to (balance, locked).
pub open spec fn ledger_map(s: Seq<BalanceEntry>) -> Map<AccountKey, (u64, u64)> {
    Map::new(
        |k: AccountKey| has_key(s, k.0, k.1),
        |k: AccountKey| (s[index_of(s, k.0, k.1)].balance, s[index_of(s, k.0, k.1)].locked_balance),
    )
}

/// `m` with `amount` taken from the balance of account `k`, and `unlock`
/// from what is locked of it.
pub open spec fn debit(m: Map<AccountKey, (u64, u64)>, k: AccountKey, amount: int, unlock: int) -> Map<AccountKey, (u64, u64)> {
    m.insert(k, ((m[k].0 - amount) as u64, (m[k].1 - unlock) as u64))
}

/// `m` with `amount` added to the balance of account `k`, which is opened
/// empty if it does not exist.
pub open spec fn credit(m: Map<AccountKey, (u64, u64)>, k: AccountKey, amount: int) -> Map<AccountKey, (u64, u64)> {
    if m.contains_key(k) {
        m.insert(k, ((m[k].0 + amount) as u64, m[k].1))
    } else {
        m.insert(k, (amount as u64, 0))
    }
}

/// The effect of one fill of `quantity` at `price` on the ledger: the seller
/// gives up `quantity` of the base asset from escrow and gains its value in
/// the quote asset; the buyer gains `quantity` of the base asset and pays
/// the value, releasing from escrow what was locked for that quantity at its
/// own limit `buyer_limit`, so that the difference returns to what it has
/// available.
pub open spec fn settle(
    m: Map<AccountKey, (u64, u64)>,
    buyer: Seq<char>,
    seller: Seq<char>,
    base: Seq<char>,
    quote: Seq<char>,
    price: int,
    quantity: int,
    buyer_limit: int,
) -> Map<AccountKey, (u64, u64)> {
    let m1 = debit(m, (seller, base), quantity, quantity);
    let m2 = debit(m1, (buyer, quote), price * quantity, buyer_limit * quantity);
    let m3 = credit(m2, (buyer, base), quantity);
    credit(m3, (seller, quote), price * quantity)
}

/// When one fill can be settled: both escrow accounts exist and hold what
/// the fill releases from them (together, when they are one account), and
/// the buyer pays no more than its limit.
pub open spec fn can_settle(
    m: Map<AccountKey, (u64, u64)>,
    buyer: Seq<char>,
    seller: Seq<char>,
    base: Seq<char>,
    quote: Seq<char>,
    price: int,
    quantity: int,
    buyer_limit: int,
) -> bool {
    let sk = (seller, base);
    let bk = (buyer, quote);
    &&& m.contains_key(sk)
    &&& m.contains_key(bk)
    &&& if sk == bk {
        m[sk].1 >= quantity + buyer_limit * quantity
    } else {
        m[sk].1 >= quantity && m[bk].1 >= buyer_limit * quantity
    }
    &&& price <= buyer_limit
}

/// The product of two 64-bit values fits in 128 bits.
pub proof fn lemma_mul_fits(a: u64, b: u64)
    ensures
        0 <= a * b <= 0xFFFF_FFFF_FFFF_FFFF * 0xFFFF_FFFF_FFFF_FFFF,
        0xFFFF_FFFF_FFFF_FFFF * 0xFFFF_FFFF_FFFF_FFFF < 0x1_0000_0000_0000_0000_0000_0000_0000_0000,
{
    assert(0 <= a * b <= 0xFFFF_FFFF_FFFF_FFFF * 0xFFFF_FFFF_FFFF_FFFF) by (nonlinear_arith)
        requires a <= 0xFFFF_FFFF_FFFF_FFFFu64, b <= 0xFFFF_FFFF_FFFF_FFFFu64;
}

proof fn lemma_total_update(s: Seq<BalanceEntry>, i: int, e: BalanceEntry, t: Seq<char>)
    requires
        0 <= i < s.len(),
    ensures
        asset_total(s.update(i, e), t) == asset_total(s, t)
            - (if s[i].ticker@ == t { s[i].balance as int } else { 0 })
            + (if e.ticker@ == t { e.balance as int } else { 0 }),
    decreases s.len(),
{
    let u = s.update(i, e);
    if i == s.len() - 1 {
        assert(u.drop_last() =~= s.drop_last());
    } else {
        assert(u.drop_last() =~= s.drop_last().update(i, e));
        lemma_total_update(s.drop_last(), i, e, t);
    }
}

proof fn lemma_total_nonneg(s: Seq<BalanceEntry>, t: Seq<char>)
    ensures
        asset_total(s, t) >= 0,
    decreases s.len(),
{
    if s.len() > 0 {
        lemma_total_nonneg(s.drop_last(), t);
    }
}

proof fn lemma_entry_le_total(s: Seq<BalanceEntry>, i: int)
    requires
        0 <= i < s.len(),
    ensures
        s[i].balance <= asset_total(s, s[i].ticker@),
    decreases s.len(),
{
    let t = s[i].ticker@;
    lemma_total_nonneg(s.drop_last(), t);
    if i < s.len() - 1 {
        lemma_entry_le_total(s.drop_last(), i);
        assert(s.drop_last()[i] == s[i]);
    }
}

proof fn lemma_total_push(s: Seq<BalanceEntry>, e: BalanceEntry, t: Seq<char>)
    ensures
        asset_total(s.push(e), t) == asset_total(s, t) + if e.ticker@ == t { e.balance as int } else { 0 },
{
    assert(s.push(e).drop_last() =~= s);
}

proof fn lemma_total_prefix(s: Seq<BalanceEntry>, t: Seq<char>, n: int)
    requires
        0 <= n <= s.len(),
    ensures
        asset_total(s.subrange(0, n), t) <= asset_total(s, t),
    decreases s.len() - n,
{
    if n < s.len() {
        lemma_total_prefix(s, t, n + 1);
        assert(s.subrange(0, n + 1).drop_last() =~= s.subrange(0, n));
    } else {
        assert(s.subrange(0, n) =~= s);
    }
}

/// The balance ledger, shared by all markets: one account per user and
/// asset.
#[derive(Debug)]
pub struct Ledger {
    pub entries: Vec<BalanceEntry>,
}

impl Ledger {
    /// One account per key; nothing locked beyond the balance; each asset's
    /// total fits in 64 bits.
    pub open spec fn wf(&self) -> bool {
        &&& forall|i: int, j: int|
            0 <= i < self.entries@.len() && 0 <= j < self.entries@.len() && #[trigger] self.entries@[i].user_id@
                == #[trigger] self.entries@[j].user_id@ && self.entries@[i].ticker@ == self.entries@[j].ticker@ ==> i == j
        &&& forall|i: int| 0 <= i < self.entries@.len() ==> (#[trigger] self.entries@[i]).locked_balance <= self.entries@[i].balance
        &&& forall|t: Seq<char>| #[trigger] asset_total(self.entries@, t) <= u64::MAX
    }

    pub open spec fn view(&self) -> Map<AccountKey, (u64, u64)> {
        ledger_map(self.entries@)
    }

    /// What `user` has of `ticker` beyond what is locked; zero without an account.
    pub open spec fn available(&self, user: Seq<char>, ticker: Seq<char>) -> int {
        if self.view().contains_key((user, ticker)) {
            self.view()[(user, ticker)].0 - self.view()[(user, ticker)].1
        } else {
            0
        }
    }

    /// What `user` has locked of `ticker`; zero without an account.
    pub open spec fn locked(&self, user: Seq<char>, ticker: Seq<char>) -> int {
        if self.view().contains_key((user, ticker)) {
            self.view()[(user, ticker)].1 as int
        } else {
            0
        }
    }

    /// An empty ledger.
    pub fn new() -> (r: Self)
        ensures
            r.wf(),
            r.view() == Map::<AccountKey, (u64, u64)>::empty(),
            forall|t: Seq<char>| #[trigger] r.supply(t) == 0,
    {
        let r = Ledger { entries: Vec::new() };
        assert(r.view() =~= Map::<AccountKey, (u64, u64)>::empty());
        r
    }

    proof fn lemma_index(&self, i: int)
        requires
            self.wf(),
            0 <= i < self.entries@.len(),
        ensures
            index_of(self.entries@, self.entries@[i].user_id@, self.entries@[i].ticker@) == i,
            self.view().contains_key((self.entries@[i].user_id@, self.entries@[i].ticker@)),
            self.view()[(self.entries@[i].user_id@, self.entries@[i].ticker@)] == (
                self.entries@[i].balance,
                self.entries@[i].locked_balance,
            ),
    {
        let s = self.entries@;
        assert(key_at(s, i, s[i].user_id@, s[i].ticker@));
        let j = index_of(s, s[i].user_id@, s[i].ticker@);
        assert(key_at(s, j, s[i].user_id@, s[i].ticker@));
    }

    /// The position of the account of `user` in `ticker`, if there is one.
    fn find(&self, user: &String, ticker: &String) -> (r: Option<usize>)
        requires
            self.wf(),
        ensures
            match r {
                Some(i) => i < self.entries@.len() && key_at(self.entries@, i as int, user@, ticker@),
                None => !self.view().contains_key((user@, ticker@)),
            },
    {
        let mut i: usize = 0;
        while i < self.entries.len()
            invariant
                i <= self.entries@.len(),
                forall|k: int| 0 <= k < i ==> !key_at(self.entries@, k, user@, ticker@),
            decreases self.entries@.len() - i,
        {
            if self.entries[i].user_id == *user && self.entries[i].ticker == *ticker {
                return Some(i);
            }
            i = i + 1;
        }
        None
    }

    /// Replaces the amounts of the account at `i`.
    fn set_amounts(&mut self, i: usize, balance: u64, locked: u64)
        requires
            old(self).wf(),
            i < old(self).entries@.len(),
            locked <= balance,
            asset_total(old(self).entries@, old(self).entries@[i as int].ticker@) - old(self).entries@[i as int].balance
                + balance <= u64::MAX,
        ensures
            final(self).wf(),
            final(self).view() == old(self).view().insert(
                (old(self).entries@[i as int].user_id@, old(self).entries@[i as int].ticker@),
                (balance, locked),
            ),
            forall|t: Seq<char>|
                #[trigger] asset_total(final(self).entries@, t) == asset_total(old(self).entries@, t) - (if old(
                    self,
                ).entries@[i as int].ticker@ == t { old(self).entries@[i as int].balance as int } else { 0 }) + (
                if old(self).entries@[i as int].ticker@ == t { balance as int } else { 0 }),
    {
        let ghost s = self.entries@;
        let ghost old_view = self.view();
        let ghost k = (s[i as int].user_id@, s[i as int].ticker@);
        self.entries[i].balance = balance;
        self.entries[i].locked_balance = locked;
        let ghost n = self.entries@;
        assert(n =~= s.update(i as int, BalanceEntry { balance, locked_balance: locked, ..s[i as int] }));
        assert forall|t: Seq<char>|
            #[trigger] asset_total(n, t) == asset_total(s, t) - (if s[i as int].ticker@ == t {
                s[i as int].balance as int
            } else {
                0
            }) + (if s[i as int].ticker@ == t { balance as int } else { 0 }) by {
            lemma_total_update(s, i as int, n[i as int], t);
        }
        assert forall|t: Seq<char>| #[trigger] asset_total(n, t) <= u64::MAX by {
            assert(asset_total(s, t) <= u64::MAX);
            if s[i as int].ticker@ == t {
            }
        }
        assert(self.wf());
        assert forall|kk: AccountKey| #[trigger] self.view().contains_key(kk) == old_view.insert(k, (balance, locked)).contains_key(kk) by {
            if kk == k {
                assert(key_at(n, i as int, kk.0, kk.1));
            } else {
                if has_key(s, kk.0, kk.1) {
                    let j = index_of(s, kk.0, kk.1);
                    assert(key_at(n, j, kk.0, kk.1));
                }
                if has_key(n, kk.0, kk.1) {
                    let j = index_of(n, kk.0, kk.1);
                    assert(key_at(s, j, kk.0, kk.1));
                }
            }
        }
        assert forall|kk: AccountKey| #[trigger] self.view().contains_key(kk) implies self.view()[kk] == old_view.insert(k, (balance, locked))[kk] by {
            let j = index_of(n, kk.0, kk.1);
            self.lemma_index(j);
            if kk != k {
                assert(key_at(s, j, kk.0, kk.1));
                old(self).lemma_index(j);
            }
        }
        assert(self.view() =~= old_view.insert(k, (balance, locked)));
    }

    /// Opens an empty account; the caller knows there is none for the key.
    fn open_account(&mut self, user: &String, ticker: &String)
        requires
            old(self).wf(),
            !old(self).view().contains_key((user@, ticker@)),
        ensures
            final(self).wf(),
            final(self).view() == old(self).view().insert((user@, ticker@), (0u64, 0u64)),
            forall|t: Seq<char>| #[trigger] asset_total(final(self).entries@, t) == asset_total(old(self).entries@, t),
            final(self).entries@.len() == old(self).entries@.len() + 1,
            key_at(final(self).entries@, old(self).entries@.len() as int, user@, ticker@),
    {
        let ghost s = self.entries@;
        let ghost old_view = self.view();
        let ghost k = (user@, ticker@);
        let e = BalanceEntry { user_id: user.clone(), ticker: ticker.clone(), balance: 0, locked_balance: 0 };
        self.entries.push(e);
        let ghost n = self.entries@;
        assert forall|t: Seq<char>| #[trigger] asset_total(n, t) == asset_total(s, t) by {
            lemma_total_push(s, e, t);
        }
        assert forall|i: int, j: int|
            0 <= i < n.len() && 0 <= j < n.len() && #[trigger] n[i].user_id@ == #[trigger] n[j].user_id@
                && n[i].ticker@ == n[j].ticker@ implies i == j by {
            if i < s.len() && j == s.len() {
                assert(key_at(s, i, user@, ticker@));
            } else if j < s.len() && i == s.len() {
                assert(key_at(s, j, user@, ticker@));
            } else if i < s.len() && j < s.len() {
                assert(n[i] == s[i] && n[j] == s[j]);
            }
        }
        assert forall|i: int| 0 <= i < n.len() implies (#[trigger] n[i]).locked_balance <= n[i].balance by {
            if i < s.len() {
                assert(n[i] == s[i]);
            }
        }
        assert(self.wf());
        assert forall|kk: AccountKey| #[trigger] self.view().contains_key(kk) == old_view.insert(k, (0u64, 0u64)).contains_key(kk) by {
            if kk == k {
                assert(key_at(n, s.len() as int, kk.0, kk.1));
            } else {
                if has_key(s, kk.0, kk.1) {
                    let j = index_of(s, kk.0, kk.1);
                    assert(key_at(n, j, kk.0, kk.1));
                }
                if has_key(n, kk.0, kk.1) {
                    let j = index_of(n, kk.0, kk.1);
                    assert(key_at(s, j, kk.0, kk.1));
                }
            }
        }
        assert forall|kk: AccountKey| #[trigger] self.view().contains_key(kk) implies self.view()[kk] == old_view.insert(k, (0u64, 0u64))[kk] by {
            let j = index_of(n, kk.0, kk.1);
            self.lemma_index(j);
            if kk != k {
                assert(key_at(s, j, kk.0, kk.1));
                assert(n[j] == s[j]);
                old(self).lemma_index(j);
            }
        }
        assert(self.view() =~= old_view.insert(k, (0u64, 0u64)));
        assert(key_at(n, s.len() as int, user@, ticker@));
    }

    fn debit_account(&mut self, user: &String, ticker: &String, amount: u64, unlock: u64)
        requires
            old(self).wf(),
            old(self).view().contains_key((user@, ticker@)),
            amount <= old(self).view()[(user@, ticker@)].0,
            unlock <= old(self).view()[(user@, ticker@)].1,
            old(self).view()[(user@, ticker@)].1 - unlock <= old(self).view()[(user@, ticker@)].0 - amount,
        ensures
            final(self).wf(),
            final(self).view() == debit(old(self).view(), (user@, ticker@), amount as int, unlock as int),
            forall|t: Seq<char>|
                #[trigger] asset_total(final(self).entries@, t) == asset_total(old(self).entries@, t) - if t == ticker@ {
                    amount as int
                } else {
                    0
                },
    {
        let i = match self.find(user, ticker) {
            Some(i) => i,
            None => {
                assert(false);
                return;
            },
        };
        proof {
            self.lemma_index(i as int);
        }
        let b = self.entries[i].balance;
        let l = self.entries[i].locked_balance;
        self.set_amounts(i, b - amount, l - unlock);
    }

    fn credit_account(&mut self, user: &String, ticker: &String, amount: u64)
        requires
            old(self).wf(),
            asset_total(old(self).entries@, ticker@) + amount <= u64::MAX,
        ensures
            final(self).wf(),
            final(self).view() == credit(old(self).view(), (user@, ticker@), amount as int),
            forall|t: Seq<char>|
                #[trigger] asset_total(final(self).entries@, t) == asset_total(old(self).entries@, t) + if t == ticker@ {
                    amount as int
                } else {
                    0
                },
    {
        let ghost v0 = self.view();
        let i = match self.find(user, ticker) {
            Some(i) => i,
            None => {
                let n = self.entries.len();
                self.open_account(user, ticker);
                n
            },
        };
        proof {
            self.lemma_index(i as int);
            lemma_entry_le_total(self.entries@, i as int);
        }
        let b = self.entries[i].balance;
        let l = self.entries[i].locked_balance;
        self.set_amounts(i, b + amount, l);
        proof {
            if v0.contains_key((user@, ticker@)) {
                assert(self.view() =~= credit(v0, (user@, ticker@), amount as int));
            } else {
                assert(self.view() =~= credit(v0, (user@, ticker@), amount as int));
            }
        }
    }

    /// The total of asset `ticker` over all accounts.
    pub open spec fn supply(&self, ticker: Seq<char>) -> int {
        asset_total(self.entries@, ticker)
    }

    /// The total of asset `ticker` over all accounts.
    pub fn total_supply(&self, ticker: &String) -> (r: u64)
        requires
            self.wf(),
        ensures
            r == self.supply(ticker@),
    {
        let mut i: usize = 0;
        let mut sum: u64 = 0;
        while i < self.entries.len()
            invariant
                self.wf(),
                i <= self.entries@.len(),
                sum == asset_total(self.entries@.subrange(0, i as int), ticker@),
            decreases self.entries@.len() - i,
        {
            let ghost cur = self.entries@.subrange(0, i + 1);
            assert(cur.drop_last() =~= self.entries@.subrange(0, i as int));
            proof {
                lemma_total_prefix(self.entries@, ticker@, i + 1);
            }
            if self.entries[i].ticker == *ticker {
                sum = sum + self.entries[i].balance;
            }
            i = i + 1;
        }
        assert(self.entries@.subrange(0, self.entries@.len() as int) =~= self.entries@);
        sum
    }

    /// Opens the account of `user` in `ticker` with `balance`, nothing
    /// locked. Refused when the account exists, or when the asset's total
    /// would no longer fit in 64 bits.
    pub fn add_account(&mut self, user: &String, ticker: &String, balance: u64) -> (r: Result<(), LedgerError>)
        requires
            old(self).wf(),
        ensures
            final(self).wf(),
            old(self).view().contains_key((user@, ticker@)) ==> r == Err::<(), LedgerError>(LedgerError::DuplicateAccount),
            !old(self).view().contains_key((user@, ticker@)) && old(self).supply(ticker@) + balance > u64::MAX
                ==> r == Err::<(), LedgerError>(LedgerError::SupplyOverflow),
            !old(self).view().contains_key((user@, ticker@)) && old(self).supply(ticker@) + balance <= u64::MAX
                ==> r is Ok,
            r is Ok ==> final(self).view() == old(self).view().insert((user@, ticker@), (balance, 0u64)),
            r is Err ==> final(self).view() == old(self).view(),
            forall|t: Seq<char>|
                #[trigger] final(self).supply(t) == old(self).supply(t) + if r is Ok && t == ticker@ {
                    balance as int
                } else {
                    0
                },
    {
        if self.find(user, ticker).is_some() {
            proof {
                let i = choose|i: int| key_at(self.entries@, i, user@, ticker@);
                self.lemma_index(i);
            }
            return Err(LedgerError::DuplicateAccount);
        }
        let total = self.total_supply(ticker);
        if balance > u64::MAX - total {
            return Err(LedgerError::SupplyOverflow);
        }
        self.credit_account(user, ticker, balance);
        Ok(())
    }

    /// Moves `amount` of `ticker` from what `user` has available to what is
    /// locked. Returns whether it did: it does exactly when the account
    /// exists and has that much available.
    pub fn try_lock(&mut self, user: &String, ticker: &String, amount: u128) -> (r: bool)
        requires
            old(self).wf(),
        ensures
            final(self).wf(),
            r == (old(self).view().contains_key((user@, ticker@)) && amount <= old(self).available(user@, ticker@)),
            r ==> final(self).view() == old(self).view().insert(
                (user@, ticker@),
                (old(self).view()[(user@, ticker@)].0, (old(self).view()[(user@, ticker@)].1 + amount) as u64),
            ),
            !r ==> final(self).view() == old(self).view(),
            forall|t: Seq<char>| #[trigger] final(self).supply(t) == old(self).supply(t),
    {
        match self.find(user, ticker) {
            None => false,
            Some(i) => {
                proof {
                    self.lemma_index(i as int);
                }
                let b = self.entries[i].balance;
                let l = self.entries[i].locked_balance;
                if amount <= (b - l) as u128 {
                    self.set_amounts(i, b, l + amount as u64);
                    true
                } else {
                    false
                }
            },
        }
    }

    /// Returns `amount` of `ticker` from what `user` has locked to what is
    /// available. Refused when the account does not exist, or locks less
    /// than `amount`.
    pub fn release_lock(&mut self, user: &String, ticker: &String, amount: u128) -> (r: Result<(), LedgerError>)
        requires
            old(self).wf(),
        ensures
            final(self).wf(),
            !old(self).view().contains_key((user@, ticker@)) ==> r == Err::<(), LedgerError>(LedgerError::UnknownAccount),
            old(self).view().contains_key((user@, ticker@)) && amount > old(self).view()[(user@, ticker@)].1
                ==> r == Err::<(), LedgerError>(LedgerError::LockedShortfall),
            old(self).view().contains_key((user@, ticker@)) && amount <= old(self).view()[(user@, ticker@)].1 ==> r is Ok,
            r is Ok ==> final(self).view() == old(self).view().insert(
                (user@, ticker@),
                (old(self).view()[(user@, ticker@)].0, (old(self).view()[(user@, ticker@)].1 - amount) as u64),
            ),
            r is Err ==> final(self).view() == old(self).view(),
            forall|t: Seq<char>| #[trigger] final(self).supply(t) == old(self).supply(t),
    {
        match self.find(user, ticker) {
            None => Err(LedgerError::UnknownAccount),
            Some(i) => {
                proof {
                    self.lemma_index(i as int);
                }
                let b = self.entries[i].balance;
                let l = self.entries[i].locked_balance;
                if amount <= l as u128 {
                    self.set_amounts(i, b, l - amount as u64);
                    Ok(())
                } else {
                    Err(LedgerError::LockedShortfall)
                }
            },
        }
    }

    /// Settles one fill of `quantity` at `price` between `buyer` and
    /// `seller` in one step (see `settle`). `buyer_limit` is the price at
    /// which the buyer's escrow was locked. Refused, with nothing changed,
    /// when an escrow account is missing or holds less than the fill
    /// releases.
    pub fn settle_fill(
        &mut self,
        buyer: &String,
        seller: &String,
        base: &String,
        quote: &String,
        price: u64,
        quantity: u64,
        buyer_limit: u64,
    ) -> (r: Result<(), LedgerError>)
        requires
            old(self).wf(),
            price <= buyer_limit,
        ensures
            final(self).wf(),
            (r is Ok) == can_settle(old(self).view(), buyer@, seller@, base@, quote@, price as int, quantity as int, buyer_limit as int),
            !old(self).view().contains_key((seller@, base@)) || !old(self).view().contains_key((buyer@, quote@))
                ==> r == Err::<(), LedgerError>(LedgerError::UnknownAccount),
            r is Ok ==> final(self).view() == settle(old(self).view(), buyer@, seller@, base@, quote@, price as int, quantity as int, buyer_limit as int),
            r is Err ==> final(self).view() == old(self).view(),
            forall|t: Seq<char>| #[trigger] final(self).supply(t) == old(self).supply(t),
    {
        let si = match self.find(seller, base) {
            Some(i) => i,
            None => return Err(LedgerError::UnknownAccount),
        };
        let bi = match self.find(buyer, quote) {
            Some(i) => i,
            None => {
                proof { self.lemma_index(si as int); }
                return Err(LedgerError::UnknownAccount);
            },
        };
        proof {
            self.lemma_index(si as int);
            self.lemma_index(bi as int);
        }
        let seller_locked = self.entries[si].locked_balance;
        let buyer_locked = self.entries[bi].locked_balance;
        proof {
            lemma_mul_fits(buyer_limit, quantity);
            lemma_mul_fits(price, quantity);
        }
        let lock_value: u128 = (buyer_limit as u128) * (quantity as u128);
        let value: u128 = (price as u128) * (quantity as u128);
        let same = *seller == *buyer && *base == *quote;
        if same {
            if (seller_locked as u128) < (quantity as u128) + lock_value {
                return Err(LedgerError::LockedShortfall);
            }
        } else if seller_locked < quantity || (buyer_locked as u128) < lock_value {
            return Err(LedgerError::LockedShortfall);
        }
        assert(value <= lock_value) by (nonlinear_arith)
            requires price <= buyer_limit, value == price * quantity, lock_value == buyer_limit * quantity;
        let ghost v0 = self.view();
        let ghost t0 = self.entries@;
        proof {
            lemma_entry_le_total(t0, si as int);
            lemma_entry_le_total(t0, bi as int);
        }
        self.debit_account(seller, base, quantity, quantity);
        self.debit_account(buyer, quote, value as u64, lock_value as u64);
        self.credit_account(buyer, base, quantity);
        self.credit_account(seller, quote, value as u64);
        Ok(())
    }

    /// Does `user` hold any account?
    pub open spec fn has_user(&self, user: Seq<char>) -> bool {
        exists|i: int| 0 <= i < self.entries@.len() && #[trigger] self.entries@[i].user_id@ == user
    }

    /// Whether `user` holds any account.
    pub fn knows_user(&self, user: &String) -> (r: bool)
        ensures
            r == self.has_user(user@),
    {
        let mut i: usize = 0;
        while i < self.entries.len()
            invariant
                i <= self.entries@.len(),
                forall|k: int| 0 <= k < i ==> #[trigger] self.entries@[k].user_id@ != user@,
            decreases self.entries@.len() - i,
        {
            if self.entries[i].user_id == *user {
                return true;
            }
            i = i + 1;
        }
        false
    }

    /// The balances of `user`, in the order of the accounts; `None` when the
    /// user holds no account at all.
    pub fn user_balances(&self, user: &String) -> (r: Option<Vec<Balance>>)
        ensures
            match r {
                Some(v) => v@ == balances_of(self.entries@, user@) && exists|i: int|
                    0 <= i < self.entries@.len() && #[trigger] self.entries@[i].user_id@ == user@,
                None => forall|i: int| 0 <= i < self.entries@.len() ==> #[trigger] self.entries@[i].user_id@ != user@,
            },
    {
        let mut out: Vec<Balance> = Vec::new();
        let mut found = false;
        let mut i: usize = 0;
        while i < self.entries.len()
            invariant
                i <= self.entries@.len(),
                out@ == balances_of(self.entries@.subrange(0, i as int), user@),
                found == exists|k: int| 0 <= k < i && #[trigger] self.entries@[k].user_id@ == user@,
            decreases self.entries@.len() - i,
        {
            let ghost cur = self.entries@.subrange(0, i + 1);
            assert(cur.drop_last() =~= self.entries@.subrange(0, i as int));
            if self.entries[i].user_id == *user {
                out.push(
                    Balance {
                        ticker: self.entries[i].ticker.clone(),
                        balance: self.entries[i].balance,
                        locked_balance: self.entries[i].locked_balance,
                    },
                );
                found = true;
            }
            i = i + 1;
        }
        assert(self.entries@.subrange(0, self.entries@.len() as int) =~= self.entries@);
        if found {
            Some(out)
        } else {
            None
        }
    }
}

} // verus!
