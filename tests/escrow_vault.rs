use strategy_escrow::{EscrowVault, LockStatus, Party, Transfer, VaultError};

const OWNER: u64 = 11;
const RECIPIENT: u64 = 22;
const TOKEN: u64 = 700;

fn ready_vault() -> EscrowVault {
    let mut vault = EscrowVault::new();
    vault.init(OWNER).unwrap();
    vault
}

#[test]
fn test_full_flow() {
    let mut vault = EscrowVault::new();
    vault.init(OWNER).unwrap();
    assert_eq!(vault.owner(), Ok(OWNER));

    let paid_in = vault.deposit(OWNER, TOKEN, 5_000).unwrap();
    assert_eq!(
        paid_in,
        Transfer { token: TOKEN, from: Party::Account(OWNER), to: Party::Vault, amount: 5_000 }
    );
    assert_eq!(vault.balance(OWNER, TOKEN), 5_000);

    let paid_out = vault.withdraw(OWNER, TOKEN, 1_000).unwrap();
    assert_eq!(
        paid_out,
        Transfer { token: TOKEN, from: Party::Vault, to: Party::Account(OWNER), amount: 1_000 }
    );
    assert_eq!(vault.balance(OWNER, TOKEN), 4_000);

    let lock_id = vault.lock(OWNER, TOKEN, 2_000, 1_000, 100).unwrap();
    assert_eq!(lock_id, 0);
    assert_eq!(vault.balance(OWNER, TOKEN), 2_000);

    let entry = vault.get_lock(OWNER, lock_id).unwrap();
    assert_eq!(entry.amount, 2_000);
    assert_eq!(entry.status, LockStatus::Active);

    let released = vault.release(OWNER, lock_id, RECIPIENT, 100).unwrap();
    assert_eq!(
        released,
        Transfer { token: TOKEN, from: Party::Vault, to: Party::Account(RECIPIENT), amount: 2_000 }
    );

    let entry = vault.get_lock(OWNER, lock_id).unwrap();
    assert_eq!(entry.status, LockStatus::Released);
}

#[test]
fn test_reclaim_expired() {
    let mut vault = ready_vault();
    vault.deposit(OWNER, TOKEN, 3_000).unwrap();

    let lock_id = vault.lock(OWNER, TOKEN, 2_000, 200, 100).unwrap();

    vault.reclaim(OWNER, lock_id, 201).unwrap();
    assert_eq!(vault.balance(OWNER, TOKEN), 3_000);

    let entry = vault.get_lock(OWNER, lock_id).unwrap();
    assert_eq!(entry.status, LockStatus::Expired);
}

#[test]
fn test_withdraw_insufficient() {
    let mut vault = ready_vault();
    vault.deposit(OWNER, TOKEN, 100).unwrap();
    let err = vault.withdraw(OWNER, TOKEN, 200).unwrap_err();
    assert_eq!(err, VaultError::InsufficientFunds);
    assert_eq!(err.code(), 4);
    assert_eq!(vault.balance(OWNER, TOKEN), 100);
}

#[test]
fn deposit_then_withdraw_leaves_the_difference() {
    let mut vault = ready_vault();
    vault.deposit(OWNER, TOKEN, 5_000).unwrap();
    vault.withdraw(OWNER, TOKEN, 1_000).unwrap();
    assert_eq!(vault.balance(OWNER, TOKEN), 4_000);
    assert_eq!(vault.balance(OWNER, TOKEN + 1), 0);
    assert_eq!(vault.balance(RECIPIENT, TOKEN), 0);
}

#[test]
fn balances_are_kept_per_owner_and_asset() {
    let mut vault = ready_vault();
    vault.deposit(OWNER, TOKEN, 10).unwrap();
    vault.deposit(OWNER, TOKEN + 1, 20).unwrap();
    vault.deposit(RECIPIENT, TOKEN, 30).unwrap();
    vault.deposit(OWNER, TOKEN, 5).unwrap();
    assert_eq!(vault.balance(OWNER, TOKEN), 15);
    assert_eq!(vault.balance(OWNER, TOKEN + 1), 20);
    assert_eq!(vault.balance(RECIPIENT, TOKEN), 30);
}

#[test]
fn operations_before_init_fail() {
    let mut vault = EscrowVault::new();
    assert_eq!(vault.owner(), Err(VaultError::NotInitialized));
    assert_eq!(vault.deposit(OWNER, TOKEN, 5), Err(VaultError::NotInitialized));
    assert_eq!(vault.withdraw(OWNER, TOKEN, 5), Err(VaultError::NotInitialized));
    assert_eq!(vault.lock(OWNER, TOKEN, 5, 10, 1), Err(VaultError::NotInitialized));
    assert_eq!(vault.release(OWNER, 0, RECIPIENT, 1), Err(VaultError::NotInitialized));
    assert_eq!(vault.reclaim(OWNER, 0, 1), Err(VaultError::NotInitialized));
    assert_eq!(VaultError::NotInitialized.code(), 2);
}

#[test]
fn init_only_once() {
    let mut vault = ready_vault();
    assert_eq!(vault.init(RECIPIENT), Err(VaultError::AlreadyInitialized));
    assert_eq!(vault.owner(), Ok(OWNER));
    assert_eq!(VaultError::AlreadyInitialized.code(), 1);
}

#[test]
fn non_positive_amounts_are_refused() {
    let mut vault = ready_vault();
    assert_eq!(vault.deposit(OWNER, TOKEN, 0), Err(VaultError::InvalidAmount));
    assert_eq!(vault.deposit(OWNER, TOKEN, -5), Err(VaultError::InvalidAmount));
    vault.deposit(OWNER, TOKEN, 50).unwrap();
    assert_eq!(vault.withdraw(OWNER, TOKEN, 0), Err(VaultError::InvalidAmount));
    assert_eq!(vault.lock(OWNER, TOKEN, 0, 10, 1), Err(VaultError::InvalidAmount));
    assert_eq!(vault.balance(OWNER, TOKEN), 50);
    assert_eq!(VaultError::InvalidAmount.code(), 5);
}

#[test]
fn lock_expiry_must_lie_ahead() {
    let mut vault = ready_vault();
    vault.deposit(OWNER, TOKEN, 50).unwrap();
    assert_eq!(vault.lock(OWNER, TOKEN, 10, 100, 100), Err(VaultError::InvalidExpiry));
    assert_eq!(vault.lock(OWNER, TOKEN, 10, 99, 100), Err(VaultError::InvalidExpiry));
    assert_eq!(vault.lock(OWNER, TOKEN, 10, 101, 100), Ok(0));
    assert_eq!(VaultError::InvalidExpiry.code(), 10);
}

#[test]
fn lock_needs_funds() {
    let mut vault = ready_vault();
    vault.deposit(OWNER, TOKEN, 50).unwrap();
    assert_eq!(vault.lock(OWNER, TOKEN, 51, 200, 100), Err(VaultError::InsufficientFunds));
    assert_eq!(vault.balance(OWNER, TOKEN), 50);
    assert_eq!(vault.get_lock(OWNER, 0), Err(VaultError::LockNotFound));
}

#[test]
fn lock_ids_count_up_per_owner() {
    let mut vault = ready_vault();
    vault.deposit(OWNER, TOKEN, 100).unwrap();
    vault.deposit(RECIPIENT, TOKEN, 100).unwrap();
    assert_eq!(vault.lock(OWNER, TOKEN, 10, 200, 100), Ok(0));
    assert_eq!(vault.lock(OWNER, TOKEN, 10, 200, 100), Ok(1));
    assert_eq!(vault.lock(RECIPIENT, TOKEN, 10, 200, 100), Ok(0));
    assert_eq!(vault.lock(OWNER, TOKEN, 500, 200, 100), Err(VaultError::InsufficientFunds));
    assert_eq!(vault.lock(OWNER, TOKEN, 10, 200, 100), Ok(2));
    assert_eq!(vault.balance(OWNER, TOKEN), 70);
}

#[test]
fn release_at_expiry_pays_out() {
    let mut vault = ready_vault();
    vault.deposit(OWNER, TOKEN, 100).unwrap();
    let id = vault.lock(OWNER, TOKEN, 40, 200, 100).unwrap();
    let paid = vault.release(OWNER, id, RECIPIENT, 200).unwrap();
    assert_eq!(paid.amount, 40);
    assert_eq!(paid.to, Party::Account(RECIPIENT));
    assert_eq!(vault.get_lock(OWNER, id).unwrap().status, LockStatus::Released);
    assert_eq!(vault.balance(OWNER, TOKEN), 60);
}

#[test]
fn release_after_expiry_fails_and_marks_expired() {
    let mut vault = ready_vault();
    vault.deposit(OWNER, TOKEN, 100).unwrap();
    let id = vault.lock(OWNER, TOKEN, 40, 200, 100).unwrap();
    assert_eq!(vault.release(OWNER, id, RECIPIENT, 201), Err(VaultError::LockExpired));
    assert_eq!(vault.get_lock(OWNER, id).unwrap().status, LockStatus::Expired);
    assert_eq!(vault.balance(OWNER, TOKEN), 60);
    assert_eq!(vault.release(OWNER, id, RECIPIENT, 150), Err(VaultError::LockNotActive));
    assert_eq!(vault.reclaim(OWNER, id, 300), Err(VaultError::LockNotActive));
    assert_eq!(VaultError::LockExpired.code(), 8);
}

#[test]
fn reclaim_waits_for_expiry() {
    let mut vault = ready_vault();
    vault.deposit(OWNER, TOKEN, 100).unwrap();
    let id = vault.lock(OWNER, TOKEN, 40, 200, 100).unwrap();
    assert_eq!(vault.reclaim(OWNER, id, 200), Err(VaultError::LockNotExpired));
    assert_eq!(vault.get_lock(OWNER, id).unwrap().status, LockStatus::Active);
    assert_eq!(vault.reclaim(OWNER, id, 201), Ok(()));
    assert_eq!(vault.balance(OWNER, TOKEN), 100);
    assert_eq!(VaultError::LockNotExpired.code(), 9);
}

#[test]
fn missing_and_settled_locks_are_refused() {
    let mut vault = ready_vault();
    vault.deposit(OWNER, TOKEN, 100).unwrap();
    assert_eq!(vault.release(OWNER, 0, RECIPIENT, 1), Err(VaultError::LockNotFound));
    assert_eq!(vault.reclaim(OWNER, 0, 1), Err(VaultError::LockNotFound));
    let id = vault.lock(OWNER, TOKEN, 40, 200, 100).unwrap();
    assert_eq!(vault.release(RECIPIENT, id, OWNER, 100), Err(VaultError::LockNotFound));
    vault.release(OWNER, id, RECIPIENT, 100).unwrap();
    assert_eq!(vault.release(OWNER, id, RECIPIENT, 100), Err(VaultError::LockNotActive));
    assert_eq!(VaultError::LockNotFound.code(), 6);
    assert_eq!(VaultError::LockNotActive.code(), 7);
}

#[test]
fn lock_and_reclaim_keep_holdings() {
    let mut vault = ready_vault();
    vault.deposit(OWNER, TOKEN, 1_000).unwrap();
    let id = vault.lock(OWNER, TOKEN, 300, 50, 10).unwrap();
    let locked = vault.get_lock(OWNER, id).unwrap().amount;
    assert_eq!(vault.balance(OWNER, TOKEN) + locked, 1_000);
    vault.reclaim(OWNER, id, 51).unwrap();
    assert_eq!(vault.balance(OWNER, TOKEN), 1_000);
}

#[test]
fn reclaim_before_expiry_with_a_full_balance() {
    let mut vault = ready_vault();
    vault.deposit(OWNER, TOKEN, i128::MAX).unwrap();
    let id = vault.lock(OWNER, TOKEN, i128::MAX, 200, 100).unwrap();
    vault.deposit(OWNER, TOKEN, 1).unwrap();
    assert_eq!(vault.reclaim(OWNER, id, 150), Err(VaultError::LockNotExpired));
    assert_eq!(vault.get_lock(OWNER, id).unwrap().status, LockStatus::Active);
    assert_eq!(vault.balance(OWNER, TOKEN), 1);
}
