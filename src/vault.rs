use vstd::prelude::*;

verus! {

/// Lifecycle state of a lock. `Released` and `Expired` are terminal.
#[derive(Clone, Copy, Debug, PartialEq, Eq, Structural)]
pub enum LockStatus {
    Active,
    Released,
    Expired,
}

/// A time-bounded reservation of deposited funds.
#[derive(Clone, Copy, Debug, PartialEq, Eq, Structural)]
pub struct LockEntry {
    pub token: u64,
    pub amount: i128,
    pub expires_at: u64,
    pub status: LockStatus,
}

/// Failures of the vault's operations.
#[derive(Clone, Copy, Debug, PartialEq, Eq, PartialOrd, Ord, Structural)]
pub enum VaultError {
    AlreadyInitialized,
    NotInitialized,
    NotOwner,
    InsufficientFunds,
    InvalidAmount,
    LockNotFound,
    LockNotActive,
    LockExpired,
    LockNotExpired,
    InvalidExpiry,
}

impl VaultError {
    /// The numeric error code under which the ledger reports this failure.
    pub fn code(&self) -> (r: u32)
        ensures
            1 <= r <= 10,
            r == vault_error_code(*self),
    {
        match self {
            VaultError::AlreadyInitialized => 1,
            VaultError::NotInitialized => 2,
            VaultError::NotOwner => 3,
            VaultError::InsufficientFunds => 4,
            VaultError::InvalidAmount => 5,
            VaultError::LockNotFound => 6,
            VaultError::LockNotActive => 7,
            VaultError::LockExpired => 8,
            VaultError::LockNotExpired => 9,
            VaultError::InvalidExpiry => 10,
        }
    }
}

pub open spec fn vault_error_code(e: VaultError) -> u32 {
    match e {
        VaultError::AlreadyInitialized => 1,
        VaultError::NotInitialized => 2,
        VaultError::NotOwner => 3,
        VaultError::InsufficientFunds => 4,
        VaultError::InvalidAmount => 5,
        VaultError::LockNotFound => 6,
        VaultError::LockNotActive => 7,
        VaultError::LockExpired => 8,
        VaultError::LockNotExpired => 9,
        VaultError::InvalidExpiry => 10,
    }
}

/// One side of an asset transfer: the vault itself or an account.
#[derive(Clone, Copy, Debug, PartialEq, Eq, Structural)]
pub enum Party {
    Vault,
    Account(u64),
}

/// An asset movement that the host must carry out for an operation to take effect.
#[derive(Clone, Copy, Debug, PartialEq, Eq, Structural)]
pub struct Transfer {
    pub token: u64,
    pub from: Party,
    pub to: Party,
    pub amount: i128,
}

/// The transfer of `amount` of `token` from `from` to `to`.
pub open spec fn transfer_of(token: u64, from: Party, to: Party, amount: i128) -> Transfer {
    Transfer { token, from, to, amount }
}

/// The amount that an entry keeps reserved for `token`: its amount while active, else nothing.
pub open spec fn reserved(e: LockEntry, token: u64) -> int {
    if e.status == LockStatus::Active && e.token == token {
        e.amount as int
    } else {
        0
    }
}

/// The sum of the amounts of the active entries for `token`.
pub open spec fn locked_amount(entries: Seq<LockEntry>, token: u64) -> int
    decreases entries.len(),
{
    if entries.len() == 0 {
        0
    } else {
        locked_amount(entries.drop_last(), token) + reserved(entries.last(), token)
    }
}

pub proof fn lemma_locked_amount_push(entries: Seq<LockEntry>, e: LockEntry, token: u64)
    ensures
        locked_amount(entries.push(e), token) == locked_amount(entries, token) + reserved(e, token),
{
    assert(entries.push(e).drop_last() =~= entries);
}

pub proof fn lemma_locked_amount_update(entries: Seq<LockEntry>, i: int, e: LockEntry, token: u64)
    requires
        0 <= i < entries.len(),
    ensures
        locked_amount(entries.update(i, e), token) == locked_amount(entries, token) - reserved(
            entries[i],
            token,
        ) + reserved(e, token),
    decreases entries.len(),
{
    let updated = entries.update(i, e);
    if i == entries.len() - 1 {
        assert(updated.drop_last() =~= entries.drop_last());
    } else {
        assert(updated.drop_last() =~= entries.drop_last().update(i, e));
        lemma_locked_amount_update(entries.drop_last(), i, e, token);
    }
}

/// The unlocked balance of one owner in one asset.
#[derive(Clone, Debug)]
struct BalanceSlot {
    owner: u64,
    token: u64,
    amount: i128,
}

/// The locks of one owner, numbered by their position.
#[derive(Clone, Debug)]
struct LockBook {
    owner: u64,
    entries: Vec<LockEntry>,
}

/// Custody of per-owner, per-asset balances and time-bounded locks.
#[derive(Clone, Debug)]
pub struct EscrowVault {
    admin: Option<u64>,
    slots: Vec<BalanceSlot>,
    books: Vec<LockBook>,
}

impl EscrowVault {
    /// The contract-level owner, once the vault is initialised.
    pub closed spec fn admin_of(&self) -> Option<u64> {
        self.admin
    }

    closed spec fn slot_is(&self, i: int, owner: u64, token: u64) -> bool {
        0 <= i < self.slots.len() && self.slots[i].owner == owner && self.slots[i].token == token
    }

    /// The unlocked balance of `owner` in `token`; zero where nothing was ever credited.
    pub closed spec fn balance_of(&self, owner: u64, token: u64) -> int {
        if exists|i: int| self.slot_is(i, owner, token) {
            self.slots[choose|i: int| self.slot_is(i, owner, token)].amount as int
        } else {
            0
        }
    }

    closed spec fn book_is(&self, i: int, owner: u64) -> bool {
        0 <= i < self.books.len() && self.books[i].owner == owner
    }

    /// The locks of `owner`; the lock id of each is its position.
    pub closed spec fn locks_of(&self, owner: u64) -> Seq<LockEntry> {
        if exists|i: int| self.book_is(i, owner) {
            self.books[choose|i: int| self.book_is(i, owner)].entries@
        } else {
            seq![]
        }
    }

    /// Keys are unique, balances are never negative and every lock holds a positive amount.
    pub closed spec fn wf(&self) -> bool {
        &&& forall|i: int, j: int|
            #![trigger self.slots[i], self.slots[j]]
            0 <= i < self.slots.len() && 0 <= j < self.slots.len() && self.slots[i].owner
                == self.slots[j].owner && self.slots[i].token == self.slots[j].token ==> i == j
        &&& forall|i: int| 0 <= i < self.slots.len() ==> #[trigger] self.slots[i].amount >= 0
        &&& forall|i: int, j: int|
            #![trigger self.books[i], self.books[j]]
            0 <= i < self.books.len() && 0 <= j < self.books.len() && self.books[i].owner
                == self.books[j].owner ==> i == j
        &&& forall|i: int, k: int|
            #![trigger self.books[i].entries@[k]]
            0 <= i < self.books.len() && 0 <= k < self.books[i].entries@.len()
                ==> self.books[i].entries@[k].amount > 0
    }

    /// What `owner` holds of `token` in the vault: the unlocked balance plus the active locks.
    pub open spec fn holdings(&self, owner: u64, token: u64) -> int {
        self.balance_of(owner, token) + locked_amount(self.locks_of(owner), token)
    }

    /// The id that the next lock of `owner` receives.
    pub open spec fn next_lock_id(&self, owner: u64) -> int {
        self.locks_of(owner).len() as int
    }

    /// `after` holds the balances of `self`, but `amount` for `(owner, token)`.
    pub open spec fn balances_with(&self, after: Self, owner: u64, token: u64, amount: int) -> bool {
        forall|o: u64, t: u64|
            #[trigger] after.balance_of(o, t) == if o == owner && t == token {
                amount
            } else {
                self.balance_of(o, t)
            }
    }

    /// `after` holds the balances of `self`.
    pub open spec fn same_balances(&self, after: Self) -> bool {
        forall|o: u64, t: u64| #[trigger] after.balance_of(o, t) == self.balance_of(o, t)
    }

    /// `after` holds the locks of `self`, but `entries` for `owner`.
    pub open spec fn locks_with(&self, after: Self, owner: u64, entries: Seq<LockEntry>) -> bool {
        forall|o: u64|
            #[trigger] after.locks_of(o) == if o == owner {
                entries
            } else {
                self.locks_of(o)
            }
    }

    /// `after` holds the locks of `self`.
    pub open spec fn same_locks(&self, after: Self) -> bool {
        forall|o: u64| #[trigger] after.locks_of(o) == self.locks_of(o)
    }

    /// The holdings of `after` are those of `self`, but shifted by `delta` for `(owner, token)`.
    pub open spec fn holdings_shifted(&self, after: Self, owner: u64, token: u64, delta: int) -> bool {
        forall|o: u64, t: u64|
            #[trigger] after.holdings(o, t) == self.holdings(o, t) + if o == owner && t == token {
                delta
            } else {
                0
            }
    }

    proof fn lemma_balance_at(&self, i: int)
        requires
            self.wf(),
            0 <= i < self.slots.len(),
        ensures
            self.balance_of(self.slots[i].owner, self.slots[i].token) == self.slots[i].amount,
    {
        let o = self.slots[i].owner;
        let t = self.slots[i].token;
        assert(self.slot_is(i, o, t));
    }

    proof fn lemma_book_at(&self, i: int)
        requires
            self.wf(),
            0 <= i < self.books.len(),
        ensures
            self.locks_of(self.books[i].owner) == self.books[i].entries@,
    {
        let o = self.books[i].owner;
        assert(self.book_is(i, o));
    }

    proof fn lemma_locks_positive(&self, owner: u64)
        requires
            self.wf(),
        ensures
            forall|k: int|
                0 <= k < self.locks_of(owner).len() ==> #[trigger] self.locks_of(owner)[k].amount
                    > 0,
    {
        if exists|i: int| self.book_is(i, owner) {
            let c = choose|c: int| self.book_is(c, owner);
            self.lemma_book_at(c);
            assert forall|k: int| 0 <= k < self.locks_of(owner).len() implies #[trigger] self.locks_of(
                owner,
            )[k].amount > 0 by {
                assert(self.books[c].entries@[k].amount > 0);
            }
        }
    }

    proof fn lemma_locks_after_book_change(pre: Self, post: Self, i: int, owner: u64)
        requires
            pre.wf(),
            post.wf(),
            0 <= i < pre.books.len(),
            post.books.len() == pre.books.len(),
            pre.books[i].owner == owner,
            post.books[i].owner == owner,
            forall|j: int| 0 <= j < pre.books.len() && j != i ==> post.books[j] == pre.books[j],
        ensures
            pre.locks_with(post, owner, post.books[i].entries@),
    {
        assert forall|o: u64| #[trigger] post.locks_of(o) == if o == owner {
            post.books[i].entries@
        } else {
            pre.locks_of(o)
        } by {
            if o == owner {
                post.lemma_book_at(i);
            } else if exists|j: int| post.book_is(j, o) {
                let j = choose|j: int| post.book_is(j, o);
                post.lemma_book_at(j);
                pre.lemma_book_at(j);
            } else {
                assert forall|j: int| !pre.book_is(j, o) by {
                    assert(!post.book_is(j, o));
                    if 0 <= j < pre.books.len() && j != i {
                        assert(post.books[j] == pre.books[j]);
                    }
                }
            }
        }
    }

    fn push_lock(&mut self, owner: u64, e: LockEntry)
        requires
            old(self).wf(),
            e.amount > 0,
        ensures
            final(self).wf(),
            final(self).admin == old(self).admin,
            final(self).slots == old(self).slots,
            old(self).locks_with(*final(self), owner, old(self).locks_of(owner).push(e)),
            old(self).same_balances(*final(self)),
    {
        let ghost pre = *self;
        match self.find_book(owner) {
            Some(i) => {
                proof {
                    pre.lemma_book_at(i as int);
                }
                self.books[i].entries.push(e);
                let ghost post = *self;
                assert(post.wf()) by {
                    assert forall|j: int, k: int|
                        #![trigger post.books[j].entries@[k]]
                        0 <= j < post.books.len() && 0 <= k < post.books[j].entries@.len()
                            implies post.books[j].entries@[k].amount > 0 by {
                        if j != i as int {
                            assert(post.books[j] == pre.books[j]);
                        } else if k < pre.books[j].entries@.len() {
                            assert(post.books[j].entries@[k] == pre.books[j].entries@[k]);
                        }
                    }
                    assert forall|j: int, k: int|
                        #![trigger post.books[j], post.books[k]]
                        0 <= j < post.books.len() && 0 <= k < post.books.len()
                            && post.books[j].owner == post.books[k].owner implies j == k by {
                        assert(pre.books[j].owner == post.books[j].owner);
                        assert(pre.books[k].owner == post.books[k].owner);
                    }
                }
                proof {
                    Self::lemma_locks_after_book_change(pre, post, i as int, owner);
                }
            },
            None => {
                let mut entries: Vec<LockEntry> = Vec::new();
                entries.push(e);
                self.books.push(LockBook { owner, entries });
                let ghost post = *self;
                let ghost n = pre.books.len() as int;
                assert(post.wf()) by {
                    assert forall|j: int, k: int|
                        #![trigger post.books[j].entries@[k]]
                        0 <= j < post.books.len() && 0 <= k < post.books[j].entries@.len()
                            implies post.books[j].entries@[k].amount > 0 by {
                        if j != n {
                            assert(post.books[j] == pre.books[j]);
                        }
                    }
                    assert forall|j: int, k: int|
                        #![trigger post.books[j], post.books[k]]
                        0 <= j < post.books.len() && 0 <= k < post.books.len()
                            && post.books[j].owner == post.books[k].owner implies j == k by {
                        if j == n {
                            assert(!pre.book_is(k, owner));
                        } else if k == n {
                            assert(!pre.book_is(j, owner));
                        } else {
                            assert(pre.books[j] == post.books[j] && pre.books[k] == post.books[k]);
                        }
                    }
                }
                assert(pre.locks_of(owner) =~= seq![]);
                assert(post.books[n].entries@ =~= pre.locks_of(owner).push(e));
                assert forall|o: u64| #[trigger] post.locks_of(o) == if o == owner {
                    pre.locks_of(owner).push(e)
                } else {
                    pre.locks_of(o)
                } by {
                    if o == owner {
                        post.lemma_book_at(n);
                    } else if exists|j: int| post.book_is(j, o) {
                        let j = choose|j: int| post.book_is(j, o);
                        post.lemma_book_at(j);
                        pre.lemma_book_at(j);
                    } else {
                        assert forall|j: int| !pre.book_is(j, o) by {
                            assert(!post.book_is(j, o));
                            if 0 <= j < pre.books.len() {
                                assert(post.books[j] == pre.books[j]);
                            }
                        }
                    }
                }
            },
        }
        proof {
            Self::lemma_same_slots_same_balances(pre, *self);
        }
    }

    fn set_lock_status(&mut self, owner: u64, lock_id: usize, status: LockStatus)
        requires
            old(self).wf(),
            lock_id < old(self).locks_of(owner).len(),
        ensures
            final(self).wf(),
            final(self).admin == old(self).admin,
            final(self).slots == old(self).slots,
            old(self).locks_with(
                *final(self),
                owner,
                old(self).locks_of(owner).update(
                    lock_id as int,
                    LockEntry { status, ..old(self).locks_of(owner)[lock_id as int] },
                ),
            ),
            old(self).same_balances(*final(self)),
    {
        let ghost pre = *self;
        match self.find_book(owner) {
            Some(i) => {
                proof {
                    pre.lemma_book_at(i as int);
                }
                let e = self.books[i].entries[lock_id];
                self.books[i].entries.set(lock_id, LockEntry { status, ..e });
                let ghost post = *self;
                assert(post.wf()) by {
                    assert forall|j: int, k: int|
                        #![trigger post.books[j].entries@[k]]
                        0 <= j < post.books.len() && 0 <= k < post.books[j].entries@.len()
                            implies post.books[j].entries@[k].amount > 0 by {
                        if j != i as int {
                            assert(post.books[j] == pre.books[j]);
                        } else if k != lock_id as int {
                            assert(post.books[j].entries@[k] == pre.books[j].entries@[k]);
                        } else {
                            assert(pre.books[j].entries@[k].amount > 0);
                        }
                    }
                    assert forall|j: int, k: int|
                        #![trigger post.books[j], post.books[k]]
                        0 <= j < post.books.len() && 0 <= k < post.books.len()
                            && post.books[j].owner == post.books[k].owner implies j == k by {
                        assert(pre.books[j].owner == post.books[j].owner);
                        assert(pre.books[k].owner == post.books[k].owner);
                    }
                }
                proof {
                    Self::lemma_locks_after_book_change(pre, post, i as int, owner);
                }
            },
            None => {
                assert(pre.locks_of(owner) =~= seq![]);
            },
        }
        proof {
            Self::lemma_same_slots_same_balances(pre, *self);
        }
    }

    proof fn lemma_holdings_after(
        pre: Self,
        post: Self,
        owner: u64,
        token: u64,
        new_balance: int,
        entries: Seq<LockEntry>,
        lock_token: u64,
        lock_delta: int,
    )
        requires
            pre.balances_with(post, owner, token, new_balance),
            pre.locks_with(post, owner, entries),
            token == lock_token || lock_delta == 0,
            forall|t: u64|
                #[trigger] locked_amount(entries, t) == locked_amount(pre.locks_of(owner), t) + if t
                    == lock_token {
                    lock_delta
                } else {
                    0
                },
        ensures
            pre.holdings_shifted(
                post,
                owner,
                token,
                new_balance - pre.balance_of(owner, token) + lock_delta,
            ),
    {
        assert forall|o: u64, t: u64| #[trigger]
            post.holdings(o, t) == pre.holdings(o, t) + if o == owner && t == token {
                new_balance - pre.balance_of(owner, token) + lock_delta
            } else {
                0
            } by {
            assert(post.balance_of(o, t) == if o == owner && t == token {
                new_balance
            } else {
                pre.balance_of(o, t)
            });
            assert(post.locks_of(o) == if o == owner {
                entries
            } else {
                pre.locks_of(o)
            });
            if o == owner {
                assert(locked_amount(entries, t) == locked_amount(pre.locks_of(owner), t) + if t
                    == lock_token {
                    lock_delta
                } else {
                    0
                });
            }
        }
    }

    fn lock_at(&self, owner: u64, lock_id: u64) -> (r: Option<LockEntry>)
        requires
            self.wf(),
        ensures
            self.locks_of(owner).len() <= usize::MAX,
            r == if lock_id < self.locks_of(owner).len() {
                Some(self.locks_of(owner)[lock_id as int])
            } else {
                None::<LockEntry>
            },
    {
        match self.find_book(owner) {
            Some(i) => {
                proof {
                    self.lemma_book_at(i as int);
                }
                if lock_id < self.books[i].entries.len() as u64 {
                    Some(self.books[i].entries[lock_id as usize])
                } else {
                    None
                }
            },
            None => {
                assert(self.locks_of(owner) =~= seq![]);
                None
            },
        }
    }

    /// Records the contract-level owner; only the first call succeeds.
    pub fn init(&mut self, owner: u64) -> (r: Result<(), VaultError>)
        requires
            old(self).wf(),
        ensures
            final(self).wf(),
            old(self).admin_of() is Some ==> r == Err::<(), VaultError>(
                VaultError::AlreadyInitialized,
            ) && *final(self) == *old(self),
            old(self).admin_of() is None ==> r == Ok::<(), VaultError>(()) && final(self).admin_of()
                == Some(owner) && old(self).same_balances(*final(self)) && old(self).same_locks(
                *final(self),
            ),
    {
        if self.admin.is_some() {
            return Err(VaultError::AlreadyInitialized);
        }
        self.admin = Some(owner);
        let ghost post = *self;
        proof {
            Self::lemma_same_slots_same_balances(*old(self), post);
            Self::lemma_same_books_same_locks(*old(self), post);
        }
        Ok(())
    }

    /// The contract-level owner.
    pub fn owner(&self) -> (r: Result<u64, VaultError>)
        ensures
            r == match self.admin_of() {
                Some(a) => Ok::<u64, VaultError>(a),
                None => Err(VaultError::NotInitialized),
            },
    {
        match self.admin {
            Some(a) => Ok(a),
            None => Err(VaultError::NotInitialized),
        }
    }

    /// Credits `amount` of `token` to `owner`, against a transfer from the owner into the vault.
    pub fn deposit(&mut self, owner: u64, token: u64, amount: i128) -> (r: Result<
        Transfer,
        VaultError,
    >)
        requires
            old(self).wf(),
            old(self).admin_of() is Some && amount > 0 ==> old(self).balance_of(owner, token)
                + amount <= i128::MAX,
        ensures
            final(self).wf(),
            old(self).admin_of() is None ==> r == Err::<Transfer, VaultError>(
                VaultError::NotInitialized,
            ),
            old(self).admin_of() is Some && amount <= 0 ==> r == Err::<Transfer, VaultError>(
                VaultError::InvalidAmount,
            ),
            r is Err ==> *final(self) == *old(self),
            old(self).admin_of() is Some && amount > 0 ==> {
                &&& r == Ok::<Transfer, VaultError>(
                    transfer_of(token, Party::Account(owner), Party::Vault, amount),
                )
                &&& final(self).admin_of() == old(self).admin_of()
                &&& old(self).balances_with(
                    *final(self),
                    owner,
                    token,
                    old(self).balance_of(owner, token) + amount,
                )
                &&& old(self).same_locks(*final(self))
                &&& old(self).holdings_shifted(*final(self), owner, token, amount as int)
            },
    {
        if self.admin.is_none() {
            return Err(VaultError::NotInitialized);
        }
        if amount <= 0 {
            return Err(VaultError::InvalidAmount);
        }
        let ghost pre = *self;
        let prev = self.balance(owner, token);
        self.set_balance(owner, token, prev + amount);
        proof {
            Self::lemma_holdings_after(
                pre,
                *self,
                owner,
                token,
                prev + amount,
                pre.locks_of(owner),
                token,
                0,
            );
        }
        Ok(Transfer { token, from: Party::Account(owner), to: Party::Vault, amount })
    }

    /// Debits `amount` of `token` from `owner`, against a transfer from the vault to the owner.
    pub fn withdraw(&mut self, owner: u64, token: u64, amount: i128) -> (r: Result<
        Transfer,
        VaultError,
    >)
        requires
            old(self).wf(),
        ensures
            final(self).wf(),
            old(self).admin_of() is None ==> r == Err::<Transfer, VaultError>(
                VaultError::NotInitialized,
            ),
            old(self).admin_of() is Some && amount <= 0 ==> r == Err::<Transfer, VaultError>(
                VaultError::InvalidAmount,
            ),
            old(self).admin_of() is Some && amount > 0 && old(self).balance_of(owner, token)
                < amount ==> r == Err::<Transfer, VaultError>(VaultError::InsufficientFunds),
            r is Err ==> *final(self) == *old(self),
            old(self).admin_of() is Some && amount > 0 && old(self).balance_of(owner, token)
                >= amount ==> {
                &&& r == Ok::<Transfer, VaultError>(
                    transfer_of(token, Party::Vault, Party::Account(owner), amount),
                )
                &&& final(self).admin_of() == old(self).admin_of()
                &&& old(self).balances_with(
                    *final(self),
                    owner,
                    token,
                    old(self).balance_of(owner, token) - amount,
                )
                &&& old(self).same_locks(*final(self))
                &&& old(self).holdings_shifted(*final(self), owner, token, -amount)
            },
    {
        if self.admin.is_none() {
            return Err(VaultError::NotInitialized);
        }
        if amount <= 0 {
            return Err(VaultError::InvalidAmount);
        }
        let balance = self.balance(owner, token);
        if balance < amount {
            return Err(VaultError::InsufficientFunds);
        }
        let ghost pre = *self;
        self.set_balance(owner, token, balance - amount);
        proof {
            Self::lemma_holdings_after(
                pre,
                *self,
                owner,
                token,
                balance - amount,
                pre.locks_of(owner),
                token,
                0,
            );
        }
        Ok(Transfer { token, from: Party::Vault, to: Party::Account(owner), amount })
    }

    /// Moves `amount` of `owner`'s `token` balance into a new active lock that expires at
    /// `expires_at`; `now` is the ledger time of the call. Returns the new lock's id.
    pub fn lock(&mut self, owner: u64, token: u64, amount: i128, expires_at: u64, now: u64) -> (r:
        Result<u64, VaultError>)
        requires
            old(self).wf(),
        ensures
            final(self).wf(),
            old(self).admin_of() is None ==> r == Err::<u64, VaultError>(
                VaultError::NotInitialized,
            ),
            old(self).admin_of() is Some && amount <= 0 ==> r == Err::<u64, VaultError>(
                VaultError::InvalidAmount,
            ),
            old(self).admin_of() is Some && amount > 0 && expires_at <= now ==> r == Err::<
                u64,
                VaultError,
            >(VaultError::InvalidExpiry),
            old(self).admin_of() is Some && amount > 0 && expires_at > now && old(self).balance_of(
                owner,
                token,
            ) < amount ==> r == Err::<u64, VaultError>(VaultError::InsufficientFunds),
            r is Err ==> *final(self) == *old(self),
            old(self).admin_of() is Some && amount > 0 && expires_at > now && old(self).balance_of(
                owner,
                token,
            ) >= amount ==> {
                &&& r == Ok::<u64, VaultError>(old(self).next_lock_id(owner) as u64)
                &&& r->Ok_0 == old(self).next_lock_id(owner)
                &&& final(self).next_lock_id(owner) == old(self).next_lock_id(owner) + 1
                &&& final(self).admin_of() == old(self).admin_of()
                &&& old(self).balances_with(
                    *final(self),
                    owner,
                    token,
                    old(self).balance_of(owner, token) - amount,
                )
                &&& old(self).locks_with(
                    *final(self),
                    owner,
                    old(self).locks_of(owner).push(
                        (LockEntry { token, amount, expires_at, status: LockStatus::Active }),
                    ),
                )
                &&& old(self).holdings_shifted(*final(self), owner, token, 0)
            },
    {
        if self.admin.is_none() {
            return Err(VaultError::NotInitialized);
        }
        if amount <= 0 {
            return Err(VaultError::InvalidAmount);
        }
        if expires_at <= now {
            return Err(VaultError::InvalidExpiry);
        }
        let balance = self.balance(owner, token);
        if balance < amount {
            return Err(VaultError::InsufficientFunds);
        }
        let ghost pre = *self;
        let lock_id = match self.find_book(owner) {
            Some(i) => {
                proof {
                    self.lemma_book_at(i as int);
                }
                self.books[i].entries.len() as u64
            },
            None => {
                assert(self.locks_of(owner) =~= seq![]);
                0
            },
        };
        self.set_balance(owner, token, balance - amount);
        let e = LockEntry { token, amount, expires_at, status: LockStatus::Active };
        self.push_lock(owner, e);
        let ghost post = *self;
        proof {
            let entries = pre.locks_of(owner).push(e);
            assert forall|t: u64| #[trigger] locked_amount(entries, t) == locked_amount(
                pre.locks_of(owner),
                t,
            ) + if t == token {
                amount as int
            } else {
                0
            } by {
                lemma_locked_amount_push(pre.locks_of(owner), e, t);
            }
            Self::lemma_holdings_after(
                pre,
                post,
                owner,
                token,
                balance - amount,
                entries,
                token,
                amount as int,
            );
        }
        Ok(lock_id)
    }

    /// Pays an active, unexpired lock of `owner` out to `recipient`. A lock found past its expiry
    /// is marked `Expired`, which stays in place although the call fails with `LockExpired`.
    pub fn release(&mut self, owner: u64, lock_id: u64, recipient: u64, now: u64) -> (r: Result<
        Transfer,
        VaultError,
    >)
        requires
            old(self).wf(),
        ensures
            final(self).wf(),
            old(self).admin_of() is None ==> r == Err::<Transfer, VaultError>(
                VaultError::NotInitialized,
            ) && *final(self) == *old(self),
            old(self).admin_of() is Some && lock_id >= old(self).locks_of(owner).len() ==> r == Err::<
                Transfer,
                VaultError,
            >(VaultError::LockNotFound) && *final(self) == *old(self),
            old(self).admin_of() is Some && lock_id < old(self).locks_of(owner).len() ==> ({
                let e = old(self).locks_of(owner)[lock_id as int];
                &&& e.status != LockStatus::Active ==> r == Err::<Transfer, VaultError>(
                    VaultError::LockNotActive,
                ) && *final(self) == *old(self)
                &&& e.status == LockStatus::Active ==> {
                    &&& final(self).admin_of() == old(self).admin_of()
                    &&& old(self).same_balances(*final(self))
                    &&& now > e.expires_at ==> {
                        &&& r == Err::<Transfer, VaultError>(VaultError::LockExpired)
                        &&& old(self).locks_with(
                            *final(self),
                            owner,
                            old(self).locks_of(owner).update(
                                lock_id as int,
                                (LockEntry { status: LockStatus::Expired, ..e }),
                            ),
                        )
                        &&& old(self).holdings_shifted(*final(self), owner, e.token, -e.amount)
                    }
                    &&& now <= e.expires_at ==> {
                        &&& r == Ok::<Transfer, VaultError>(
                            transfer_of(e.token, Party::Vault, Party::Account(recipient), e.amount),
                        )
                        &&& old(self).locks_with(
                            *final(self),
                            owner,
                            old(self).locks_of(owner).update(
                                lock_id as int,
                                (LockEntry { status: LockStatus::Released, ..e }),
                            ),
                        )
                        &&& old(self).holdings_shifted(*final(self), owner, e.token, -e.amount)
                    }
                }
            }),
    {
        if self.admin.is_none() {
            return Err(VaultError::NotInitialized);
        }
        let e = match self.lock_at(owner, lock_id) {
            Some(e) => e,
            None => {
                return Err(VaultError::LockNotFound);
            },
        };
        if e.status != LockStatus::Active {
            return Err(VaultError::LockNotActive);
        }
        let ghost pre = *self;
        let status = if now > e.expires_at {
            LockStatus::Expired
        } else {
            LockStatus::Released
        };
        self.set_lock_status(owner, lock_id as usize, status);
        proof {
            let entries = pre.locks_of(owner).update(lock_id as int, LockEntry { status, ..e });
            assert forall|t: u64| #[trigger] locked_amount(entries, t) == locked_amount(
                pre.locks_of(owner),
                t,
            ) + if t == e.token {
                -e.amount
            } else {
                0
            } by {
                lemma_locked_amount_update(
                    pre.locks_of(owner),
                    lock_id as int,
                    LockEntry { status, ..e },
                    t,
                );
            }
            Self::lemma_holdings_after(
                pre,
                *self,
                owner,
                e.token,
                pre.balance_of(owner, e.token),
                entries,
                e.token,
                -e.amount,
            );
        }
        if now > e.expires_at {
            return Err(VaultError::LockExpired);
        }
        Ok(Transfer { token: e.token, from: Party::Vault, to: Party::Account(recipient), amount: e.amount })
    }

    /// Returns the amount of an active lock of `owner` that is past its expiry to the owner's
    /// balance and marks the lock `Expired`.
    pub fn reclaim(&mut self, owner: u64, lock_id: u64, now: u64) -> (r: Result<(), VaultError>)
        requires
            old(self).wf(),
            old(self).admin_of() is Some && lock_id < old(self).locks_of(owner).len() && old(
                self,
            ).locks_of(owner)[lock_id as int].status == LockStatus::Active && now > old(
                self,
            ).locks_of(owner)[lock_id as int].expires_at ==> old(self).balance_of(
                owner,
                old(self).locks_of(owner)[lock_id as int].token,
            ) + old(self).locks_of(owner)[lock_id as int].amount <= i128::MAX,
        ensures
            final(self).wf(),
            old(self).admin_of() is None ==> r == Err::<(), VaultError>(VaultError::NotInitialized),
            old(self).admin_of() is Some && lock_id >= old(self).locks_of(owner).len() ==> r == Err::<
                (),
                VaultError,
            >(VaultError::LockNotFound),
            r is Err ==> *final(self) == *old(self),
            old(self).admin_of() is Some && lock_id < old(self).locks_of(owner).len() ==> ({
                let e = old(self).locks_of(owner)[lock_id as int];
                &&& e.status != LockStatus::Active ==> r == Err::<(), VaultError>(
                    VaultError::LockNotActive,
                )
                &&& e.status == LockStatus::Active && now <= e.expires_at ==> r == Err::<
                    (),
                    VaultError,
                >(VaultError::LockNotExpired)
                &&& e.status == LockStatus::Active && now > e.expires_at ==> {
                    &&& r == Ok::<(), VaultError>(())
                    &&& final(self).admin_of() == old(self).admin_of()
                    &&& old(self).balances_with(
                        *final(self),
                        owner,
                        e.token,
                        old(self).balance_of(owner, e.token) + e.amount,
                    )
                    &&& old(self).locks_with(
                        *final(self),
                        owner,
                        old(self).locks_of(owner).update(
                            lock_id as int,
                            (LockEntry { status: LockStatus::Expired, ..e }),
                        ),
                    )
                    &&& old(self).holdings_shifted(*final(self), owner, e.token, 0)
                }
            }),
    {
        if self.admin.is_none() {
            return Err(VaultError::NotInitialized);
        }
        let e = match self.lock_at(owner, lock_id) {
            Some(e) => e,
            None => {
                return Err(VaultError::LockNotFound);
            },
        };
        if e.status != LockStatus::Active {
            return Err(VaultError::LockNotActive);
        }
        if now <= e.expires_at {
            return Err(VaultError::LockNotExpired);
        }
        let ghost pre = *self;
        let balance = self.balance(owner, e.token);
        self.set_balance(owner, e.token, balance + e.amount);
        let ghost mid = *self;
        self.set_lock_status(owner, lock_id as usize, LockStatus::Expired);
        proof {
            let post = *self;
            let entries = pre.locks_of(owner).update(
                lock_id as int,
                LockEntry { status: LockStatus::Expired, ..e },
            );
            assert(mid.locks_of(owner) == pre.locks_of(owner));
            assert forall|o: u64| #[trigger] post.locks_of(o) == if o == owner {
                entries
            } else {
                pre.locks_of(o)
            } by {
                assert(mid.locks_of(o) == pre.locks_of(o));
            }
            assert forall|o: u64, t: u64| #[trigger] post.balance_of(o, t) == if o == owner && t
                == e.token {
                balance + e.amount
            } else {
                pre.balance_of(o, t)
            } by {
                assert(mid.balance_of(o, t) == post.balance_of(o, t));
            }
            assert forall|t: u64| #[trigger] locked_amount(entries, t) == locked_amount(
                pre.locks_of(owner),
                t,
            ) + if t == e.token {
                -e.amount
            } else {
                0
            } by {
                lemma_locked_amount_update(
                    pre.locks_of(owner),
                    lock_id as int,
                    LockEntry { status: LockStatus::Expired, ..e },
                    t,
                );
            }
            Self::lemma_holdings_after(
                pre,
                post,
                owner,
                e.token,
                balance + e.amount,
                entries,
                e.token,
                -e.amount,
            );
        }
        Ok(())
    }

    /// The lock `lock_id` of `owner`.
    pub fn get_lock(&self, owner: u64, lock_id: u64) -> (r: Result<LockEntry, VaultError>)
        requires
            self.wf(),
        ensures
            r == if lock_id < self.locks_of(owner).len() {
                Ok::<LockEntry, VaultError>(self.locks_of(owner)[lock_id as int])
            } else {
                Err(VaultError::LockNotFound)
            },
            r is Ok ==> r->Ok_0.amount > 0,
    {
        proof {
            self.lemma_locks_positive(owner);
        }
        match self.lock_at(owner, lock_id) {
            Some(e) => Ok(e),
            None => Err(VaultError::LockNotFound),
        }
    }

    /// An empty vault that is not initialised yet.
    pub fn new() -> (r: EscrowVault)
        ensures
            r.wf(),
            r.admin_of() is None,
            forall|o: u64, t: u64| #[trigger] r.balance_of(o, t) == 0,
            forall|o: u64| #[trigger] r.locks_of(o) == Seq::<LockEntry>::empty(),
    {
        EscrowVault { admin: None, slots: Vec::new(), books: Vec::new() }
    }

    fn find_slot(&self, owner: u64, token: u64) -> (r: Option<usize>)
        ensures
            match r {
                Some(i) => self.slot_is(i as int, owner, token),
                None => forall|i: int| !#[trigger] self.slot_is(i, owner, token),
            },
    {
        let mut i: usize = 0;
        while i < self.slots.len()
            invariant
                i <= self.slots.len(),
                forall|j: int| 0 <= j < i ==> !#[trigger] self.slot_is(j, owner, token),
            decreases self.slots.len() - i,
        {
            if self.slots[i].owner == owner && self.slots[i].token == token {
                return Some(i);
            }
            i = i + 1;
        }
        None
    }

    fn find_book(&self, owner: u64) -> (r: Option<usize>)
        ensures
            match r {
                Some(i) => self.book_is(i as int, owner),
                None => forall|i: int| !#[trigger] self.book_is(i, owner),
            },
    {
        let mut i: usize = 0;
        while i < self.books.len()
            invariant
                i <= self.books.len(),
                forall|j: int| 0 <= j < i ==> !#[trigger] self.book_is(j, owner),
            decreases self.books.len() - i,
        {
            if self.books[i].owner == owner {
                return Some(i);
            }
            i = i + 1;
        }
        None
    }

    /// The unlocked balance of `owner` in `token`.
    pub fn balance(&self, owner: u64, token: u64) -> (r: i128)
        requires
            self.wf(),
        ensures
            r == self.balance_of(owner, token),
            r >= 0,
    {
        match self.find_slot(owner, token) {
            Some(i) => {
                proof {
                    self.lemma_balance_at(i as int);
                }
                self.slots[i].amount
            },
            None => 0,
        }
    }

    fn set_balance(&mut self, owner: u64, token: u64, amount: i128)
        requires
            old(self).wf(),
            amount >= 0,
        ensures
            final(self).wf(),
            final(self).admin == old(self).admin,
            final(self).books == old(self).books,
            old(self).balances_with(*final(self), owner, token, amount as int),
            old(self).same_locks(*final(self)),
    {
        let ghost pre = *self;
        match self.find_slot(owner, token) {
            Some(i) => {
                self.slots.set(i, BalanceSlot { owner, token, amount });
                let ghost post = *self;
                assert forall|o: u64, t: u64| #[trigger]
                    post.balance_of(o, t) == if o == owner && t == token {
                        amount as int
                    } else {
                        pre.balance_of(o, t)
                    } by {
                    if o == owner && t == token {
                        post.lemma_balance_at(i as int);
                    } else if exists|j: int| post.slot_is(j, o, t) {
                        let j = choose|j: int| post.slot_is(j, o, t);
                        post.lemma_balance_at(j);
                        pre.lemma_balance_at(j);
                    } else {
                        assert forall|j: int| !pre.slot_is(j, o, t) by {
                            assert(!post.slot_is(j, o, t));
                            if 0 <= j < pre.slots.len() && j != i {
                                assert(post.slots[j] == pre.slots[j]);
                            }
                        }
                    }
                }
            },
            None => {
                self.slots.push(BalanceSlot { owner, token, amount });
                let ghost post = *self;
                let ghost n = pre.slots.len() as int;
                assert forall|j: int, k: int|
                    #![trigger post.slots[j], post.slots[k]]
                    0 <= j < post.slots.len() && 0 <= k < post.slots.len() && post.slots[j].owner
                        == post.slots[k].owner && post.slots[j].token == post.slots[k].token
                        implies j == k by {
                    if j == n {
                        assert(!pre.slot_is(k, owner, token));
                    } else if k == n {
                        assert(!pre.slot_is(j, owner, token));
                    } else {
                        assert(pre.slots[j] == post.slots[j] && pre.slots[k] == post.slots[k]);
                    }
                }
                assert(post.wf());
                assert forall|o: u64, t: u64| #[trigger]
                    post.balance_of(o, t) == if o == owner && t == token {
                        amount as int
                    } else {
                        pre.balance_of(o, t)
                    } by {
                    if o == owner && t == token {
                        post.lemma_balance_at(n);
                    } else if exists|j: int| post.slot_is(j, o, t) {
                        let j = choose|j: int| post.slot_is(j, o, t);
                        post.lemma_balance_at(j);
                        pre.lemma_balance_at(j);
                    } else {
                        assert forall|j: int| !pre.slot_is(j, o, t) by {
                            assert(!post.slot_is(j, o, t));
                            if 0 <= j < pre.slots.len() {
                                assert(post.slots[j] == pre.slots[j]);
                            }
                        }
                    }
                }
            },
        }
        proof {
            Self::lemma_same_books_same_locks(pre, *self);
        }
    }

    proof fn lemma_same_books_same_locks(pre: Self, post: Self)
        requires
            pre.wf(),
            post.wf(),
            pre.books == post.books,
        ensures
            pre.same_locks(post),
    {
        assert forall|o: u64| #[trigger] post.locks_of(o) == pre.locks_of(o) by {
            if exists|i: int| pre.book_is(i, o) {
                let i = choose|i: int| pre.book_is(i, o);
                pre.lemma_book_at(i);
                post.lemma_book_at(i);
            } else {
                assert forall|i: int| !post.book_is(i, o) by {
                    assert(!pre.book_is(i, o));
                }
            }
        }
    }

    proof fn lemma_same_slots_same_balances(pre: Self, post: Self)
        requires
            pre.wf(),
            post.wf(),
            pre.slots == post.slots,
        ensures
            pre.same_balances(post),
    {
        assert forall|o: u64, t: u64| #[trigger] post.balance_of(o, t) == pre.balance_of(o, t) by {
            if exists|i: int| pre.slot_is(i, o, t) {
                let i = choose|i: int| pre.slot_is(i, o, t);
                pre.lemma_balance_at(i);
                post.lemma_balance_at(i);
            } else {
                assert forall|i: int| !post.slot_is(i, o, t) by {
                    assert(!pre.slot_is(i, o, t));
                }
            }
        }
    }
}

} // verus!
