use super::apply::{
    account_balance_op, account_balance_step, account_sum_op, account_sum_step, accounts_view, register_account_op,
    register_account_step, register_accounts, store_account_balances, store_account_sums, CHDiskOp,
};
use super::bodies::{CHAccountBody, CHAccountBodyView};
use super::deltas::{same_account_delta, AccountDelta, AccountDeltaView};
use super::errors::{
    AccountBalanceDownError, AccountBalanceUpError, AccountCoinHolderApplyChangesError, AccountCoinHolderRegisterError,
    AccountShadowAllocsSumDownError, AccountShadowAllocsSumUpError,
};
use crate::fold::{fold_stops_at, ops_fold, step_fold};
use crate::keymap::{Key, KeyMap};
use vstd::prelude::*;

verus! {

/// The abstract state of an account coin holder.
#[verifier::ext_equal]
pub struct AccountCoinHolderView {
    /// Permanent account bodies.
    pub accounts: Map<Seq<u8>, CHAccountBodyView>,
    /// Ephemeral changes.
    pub delta: AccountDeltaView,
    /// Backup of the ephemeral changes, for rollback.
    pub backup: AccountDeltaView,
}

/// Relates a call's result and final state to a specified outcome: on failure the state is unchanged.
pub open spec fn follows_outcome<S, E>(old_s: S, new_s: S, r: Result<(), E>, outcome: Result<S, E>) -> bool {
    match outcome {
        Ok(s) => r == Ok::<(), E>(()) && new_s == s,
        Err(e) => r == Err::<(), E>(e) && new_s == old_s,
    }
}

impl AccountCoinHolderView {
    /// An account's balance: the ephemeral one if there is one, else the permanent one.
    pub open spec fn balance(self, k: Seq<u8>) -> Option<u64> {
        if self.delta.updated_account_balances.dom().contains(k) {
            Some(self.delta.updated_account_balances[k])
        } else if self.accounts.dom().contains(k) {
            Some(self.accounts[k].balance)
        } else {
            None
        }
    }

    /// An account's shadow allocs sum in sati-satoshis: the ephemeral one if there is one, else the
    /// permanent one.
    pub open spec fn shadow_allocs_sum(self, k: Seq<u8>) -> Option<u128> {
        if self.delta.updated_shadow_allocs_sums.dom().contains(k) {
            Some(self.delta.updated_shadow_allocs_sums[k])
        } else if self.accounts.dom().contains(k) {
            Some(self.accounts[k].shadow_allocs_sum)
        } else {
            None
        }
    }

    /// The state with an account's ephemeral balance set.
    pub open spec fn with_balance(self, k: Seq<u8>, b: u64) -> Self {
        AccountCoinHolderView {
            delta: AccountDeltaView { updated_account_balances: self.delta.updated_account_balances.insert(k, b), ..self.delta },
            ..self
        }
    }

    /// The state with an account's ephemeral shadow allocs sum set.
    pub open spec fn with_shadow_allocs_sum(self, k: Seq<u8>, s: u128) -> Self {
        AccountCoinHolderView {
            delta: AccountDeltaView { updated_shadow_allocs_sums: self.delta.updated_shadow_allocs_sums.insert(k, s), ..self.delta },
            ..self
        }
    }

    /// Outcome of registering an account.
    pub open spec fn register_account(self, k: Key) -> Result<Self, AccountCoinHolderRegisterError> {
        if self.delta.is_new(k@) {
            Err(AccountCoinHolderRegisterError::AccountHasJustBeenEphemerallyRegistered(k))
        } else if self.accounts.dom().contains(k@) {
            Err(AccountCoinHolderRegisterError::AccountIsAlreadyPermanentlyRegistered(k))
        } else {
            Ok(AccountCoinHolderView {
                delta: AccountDeltaView { new_accounts_to_register: self.delta.new_accounts_to_register.push(k), ..self.delta },
                ..self
            })
        }
    }

    /// Outcome of increasing an account's balance.
    pub open spec fn balance_up(self, k: Key, up: u64) -> Result<Self, AccountBalanceUpError> {
        match self.balance(k@) {
            None => Err(AccountBalanceUpError::UnableToGetAccountBalance(k)),
            Some(b) => Ok(self.with_balance(k@, (b + up) as u64)),
        }
    }

    /// Outcome of decreasing an account's balance.
    pub open spec fn balance_down(self, k: Key, down: u64) -> Result<Self, AccountBalanceDownError> {
        match self.balance(k@) {
            None => Err(AccountBalanceDownError::UnableToGetAccountBalance(k)),
            Some(b) => if down > b {
                Err(AccountBalanceDownError::AccountBalanceWouldGoBelowZero(k, b, down))
            } else {
                Ok(self.with_balance(k@, (b - down) as u64))
            },
        }
    }

    /// Outcome of increasing an account's shadow allocs sum.
    pub open spec fn shadow_allocs_sum_up(self, k: Key, up: u128) -> Result<Self, AccountShadowAllocsSumUpError> {
        match self.shadow_allocs_sum(k@) {
            None => Err(AccountShadowAllocsSumUpError::UnableToGetAccountShadowAllocsSum(k)),
            Some(s) => Ok(self.with_shadow_allocs_sum(k@, (s + up) as u128)),
        }
    }

    /// Outcome of decreasing an account's shadow allocs sum.
    pub open spec fn shadow_allocs_sum_down(self, k: Key, down: u128) -> Result<Self, AccountShadowAllocsSumDownError> {
        match self.shadow_allocs_sum(k@) {
            None => Err(AccountShadowAllocsSumDownError::UnableToGetAccountShadowAllocsSum(k)),
            Some(s) => if down > s {
                Err(AccountShadowAllocsSumDownError::AccountShadowAllocsSumWouldGoBelowZero(k, s, down))
            } else {
                Ok(self.with_shadow_allocs_sum(k@, (s - down) as u128))
            },
        }
    }
}

/// The ephemeral changes with the accounts to register and the updated balances cleared; the
/// updated shadow allocs sums are kept.
pub open spec fn partly_flushed(d: AccountDeltaView) -> AccountDeltaView {
    AccountDeltaView { new_accounts_to_register: Seq::empty(), updated_account_balances: Map::empty(), ..d }
}

/// Every write of applying account changes, in order, as if no step failed.
pub open spec fn account_apply_ops(d: AccountDelta) -> Seq<CHDiskOp> {
    ops_fold(d.new_accounts_to_register@, register_account_op())
        + ops_fold(d.updated_account_balances.raw_keys(), account_balance_op(d.updated_account_balances@))
        + ops_fold(d.updated_shadow_allocs_sums.raw_keys(), account_sum_op(d.updated_shadow_allocs_sums@))
}

/// The permanent accounts once the new ones are registered.
pub open spec fn accounts_registered(accounts: Map<Seq<u8>, CHAccountBodyView>, d: AccountDelta) -> Map<Seq<u8>, CHAccountBodyView> {
    step_fold(accounts, d.new_accounts_to_register@, register_account_step())->Ok_0
}

/// What applying account changes does to the permanent accounts: register the new accounts, then
/// store balances, then shadow allocs sums; the first balance or sum of an account with no permanent
/// body fails with that account.
pub open spec fn account_apply_outcome(accounts: Map<Seq<u8>, CHAccountBodyView>, d: AccountDelta) -> Result<Map<Seq<u8>, CHAccountBodyView>, Key> {
    match step_fold(
        accounts_registered(accounts, d),
        d.updated_account_balances.raw_keys(),
        account_balance_step(d.updated_account_balances@),
    ) {
        Err(k) => Err(k),
        Ok(a) => step_fold(a, d.updated_shadow_allocs_sums.raw_keys(), account_sum_step(d.updated_shadow_allocs_sums@)),
    }
}

/// What a failed application of account changes leaves: the accounts of the failing step before the
/// failing account, and the writes up to it.
pub open spec fn account_apply_failed(
    accounts: Map<Seq<u8>, CHAccountBodyView>,
    d: AccountDelta,
    new_accounts: Map<Seq<u8>, CHAccountBodyView>,
    produced: Seq<CHDiskOp>,
) -> bool {
    let a1 = accounts_registered(accounts, d);
    let reg = ops_fold(d.new_accounts_to_register@, register_account_op());
    let kb = d.updated_account_balances.raw_keys();
    let mb = d.updated_account_balances@;
    let ks = d.updated_shadow_allocs_sums.raw_keys();
    let ms = d.updated_shadow_allocs_sums@;
    match step_fold(a1, kb, account_balance_step(mb)) {
        Err(_) => exists|i: int| fold_stops_at(a1, kb, account_balance_step(mb), i, new_accounts)
            && produced == reg + ops_fold(kb.subrange(0, i), account_balance_op(mb)),
        Ok(a2) => exists|i: int| fold_stops_at(a2, ks, account_sum_step(ms), i, new_accounts)
            && produced == reg + ops_fold(kb, account_balance_op(mb)) + ops_fold(ks.subrange(0, i), account_sum_op(ms)),
    }
}

/// Keeps account balances and shadow allocs sums, with ephemeral changes on top.
pub struct AccountCoinHolder {
    in_memory: KeyMap<CHAccountBody>,
    delta: AccountDelta,
    delta_backup: AccountDelta,
}

impl View for AccountCoinHolder {
    type V = AccountCoinHolderView;

    closed spec fn view(&self) -> AccountCoinHolderView {
        AccountCoinHolderView { accounts: accounts_view(self.in_memory@), delta: self.delta@, backup: self.delta_backup@ }
    }
}

impl AccountCoinHolder {
    /// The ephemeral changes as held, with their orders.
    pub closed spec fn delta_exec(&self) -> AccountDelta {
        self.delta
    }

    /// The backup as held, with its orders.
    pub closed spec fn backup_exec(&self) -> AccountDelta {
        self.delta_backup
    }

    /// The held changes are those of the view.
    pub proof fn lemma_delta_exec(&self)
        ensures
            self.delta_exec()@ == self@.delta,
            self.backup_exec()@ == self@.backup,
    {
    }

    /// An account coin holder over the given permanent bodies, with no ephemeral change.
    pub fn from_bodies(in_memory: KeyMap<CHAccountBody>) -> (r: Self)
        ensures
            r@ == (AccountCoinHolderView { accounts: accounts_view(in_memory@), delta: AccountDeltaView::empty(), backup: AccountDeltaView::empty() }),
    {
        AccountCoinHolder { in_memory, delta: AccountDelta::new(), delta_backup: AccountDelta::new() }
    }

    /// Prepares the holder before each execution: backs up the delta.
    pub fn pre_execution(&mut self)
        ensures
            final(self)@ == (AccountCoinHolderView { backup: old(self)@.delta, ..old(self)@ }),
            same_account_delta(final(self).backup_exec(), old(self).delta_exec()),
            final(self).delta_exec() == old(self).delta_exec(),
    {
        self.delta_backup = self.delta.duplicate();
    }

    /// Whether an account is permanently registered (ephemeral registrations are not counted).
    pub fn is_account_registered(&self, account_key: Key) -> (r: bool)
        ensures
            r == self@.accounts.dom().contains(account_key@),
    {
        self.in_memory.contains_key(&account_key)
    }

    /// An account's balance in satoshis.
    pub fn get_account_balance(&self, account_key: Key) -> (r: Option<u64>)
        ensures
            r == self@.balance(account_key@),
    {
        if let Some(v) = self.delta.updated_account_balances.get(&account_key) {
            return Some(*v);
        }
        match self.in_memory.get(&account_key) {
            Some(b) => Some(b.balance()),
            None => None,
        }
    }

    /// An account's shadow allocs sum in sati-satoshis.
    pub fn get_account_shadow_allocs_sum_in_sati_satoshis(&self, account_key: Key) -> (r: Option<u128>)
        ensures
            r == self@.shadow_allocs_sum(account_key@),
    {
        if let Some(v) = self.delta.updated_shadow_allocs_sums.get(&account_key) {
            return Some(*v);
        }
        match self.in_memory.get(&account_key) {
            Some(b) => Some(b.shadow_allocs_sum()),
            None => None,
        }
    }

    /// An account's shadow allocs sum in whole satoshis, rounded down.
    pub fn get_account_shadow_allocs_sum_in_satoshis(&self, account_key: Key) -> (r: Option<u64>)
        ensures
            r == match self@.shadow_allocs_sum(account_key@) {
                Some(v) => Some((v / 100_000_000) as u64),
                None => None::<u64>,
            },
    {
        match self.get_account_shadow_allocs_sum_in_sati_satoshis(account_key) {
            Some(v) => Some((v / 100_000_000) as u64),
            None => None,
        }
    }

    /// Registers an account, to be saved by `apply_changes`.
    pub fn register_account(&mut self, account_key: Key) -> (r: Result<(), AccountCoinHolderRegisterError>)
        ensures
            follows_outcome(old(self)@, final(self)@, r, old(self)@.register_account(account_key)),
            same_account_delta(final(self).backup_exec(), old(self).backup_exec()),
            final(self).delta_exec().updated_account_balances == old(self).delta_exec().updated_account_balances,
            final(self).delta_exec().updated_shadow_allocs_sums == old(self).delta_exec().updated_shadow_allocs_sums,
    {
        if self.delta.is_new(&account_key) {
            return Err(AccountCoinHolderRegisterError::AccountHasJustBeenEphemerallyRegistered(account_key));
        }
        if self.is_account_registered(account_key) {
            return Err(AccountCoinHolderRegisterError::AccountIsAlreadyPermanentlyRegistered(account_key));
        }
        self.delta.new_accounts_to_register.push(account_key);
        assert(self@ =~= old(self)@.register_account(account_key)->Ok_0);
        Ok(())
    }

    /// Increases an account's balance, to be saved by `apply_changes`.
    pub fn account_balance_up(&mut self, account_key: Key, up_value_in_satoshis: u64) -> (r: Result<(), AccountBalanceUpError>)
        requires
            old(self)@.balance(account_key@) matches Some(b) ==> b + up_value_in_satoshis <= u64::MAX,
        ensures
            follows_outcome(old(self)@, final(self)@, r, old(self)@.balance_up(account_key, up_value_in_satoshis)),
            same_account_delta(final(self).backup_exec(), old(self).backup_exec()),
    {
        let balance = match self.get_account_balance(account_key) {
            Some(b) => b,
            None => {
                return Err(AccountBalanceUpError::UnableToGetAccountBalance(account_key));
            },
        };
        let new_balance: u64 = balance + up_value_in_satoshis;
        self.delta.updated_account_balances.insert(account_key, new_balance);
        assert(self@ =~= old(self)@.with_balance(account_key@, new_balance));
        Ok(())
    }

    /// Decreases an account's balance, to be saved by `apply_changes`.
    pub fn account_balance_down(&mut self, account_key: Key, down_value_in_satoshis: u64) -> (r: Result<(), AccountBalanceDownError>)
        ensures
            follows_outcome(old(self)@, final(self)@, r, old(self)@.balance_down(account_key, down_value_in_satoshis)),
            same_account_delta(final(self).backup_exec(), old(self).backup_exec()),
    {
        let balance = match self.get_account_balance(account_key) {
            Some(b) => b,
            None => {
                return Err(AccountBalanceDownError::UnableToGetAccountBalance(account_key));
            },
        };
        if down_value_in_satoshis > balance {
            return Err(AccountBalanceDownError::AccountBalanceWouldGoBelowZero(account_key, balance, down_value_in_satoshis));
        }
        let new_balance: u64 = balance - down_value_in_satoshis;
        self.delta.updated_account_balances.insert(account_key, new_balance);
        assert(self@ =~= old(self)@.with_balance(account_key@, new_balance));
        Ok(())
    }

    /// Increases an account's shadow allocs sum, to be saved by `apply_changes`.
    pub fn account_shadow_allocs_sum_up(&mut self, account_key: Key, up_value_in_sati_satoshis: u128) -> (r: Result<(), AccountShadowAllocsSumUpError>)
        requires
            old(self)@.shadow_allocs_sum(account_key@) matches Some(s) ==> s + up_value_in_sati_satoshis <= u128::MAX,
        ensures
            follows_outcome(old(self)@, final(self)@, r, old(self)@.shadow_allocs_sum_up(account_key, up_value_in_sati_satoshis)),
            same_account_delta(final(self).backup_exec(), old(self).backup_exec()),
    {
        let sum = match self.get_account_shadow_allocs_sum_in_sati_satoshis(account_key) {
            Some(s) => s,
            None => {
                return Err(AccountShadowAllocsSumUpError::UnableToGetAccountShadowAllocsSum(account_key));
            },
        };
        let new_sum: u128 = sum + up_value_in_sati_satoshis;
        self.delta.updated_shadow_allocs_sums.insert(account_key, new_sum);
        assert(self@ =~= old(self)@.with_shadow_allocs_sum(account_key@, new_sum));
        Ok(())
    }

    /// Decreases an account's shadow allocs sum, to be saved by `apply_changes`.
    pub fn account_shadow_allocs_sum_down(&mut self, account_key: Key, down_value_in_sati_satoshis: u128) -> (r: Result<(), AccountShadowAllocsSumDownError>)
        ensures
            follows_outcome(old(self)@, final(self)@, r, old(self)@.shadow_allocs_sum_down(account_key, down_value_in_sati_satoshis)),
            same_account_delta(final(self).backup_exec(), old(self).backup_exec()),
    {
        let sum = match self.get_account_shadow_allocs_sum_in_sati_satoshis(account_key) {
            Some(s) => s,
            None => {
                return Err(AccountShadowAllocsSumDownError::UnableToGetAccountShadowAllocsSum(account_key));
            },
        };
        if down_value_in_sati_satoshis > sum {
            return Err(AccountShadowAllocsSumDownError::AccountShadowAllocsSumWouldGoBelowZero(
                account_key, sum, down_value_in_sati_satoshis));
        }
        let new_sum: u128 = sum - down_value_in_sati_satoshis;
        self.delta.updated_shadow_allocs_sums.insert(account_key, new_sum);
        assert(self@ =~= old(self)@.with_shadow_allocs_sum(account_key@, new_sum));
        Ok(())
    }

    /// Reverts the ephemeral changes of the last execution.
    pub fn rollback_last(&mut self)
        ensures
            final(self)@ == (AccountCoinHolderView { delta: old(self)@.backup, ..old(self)@ }),
            same_account_delta(final(self).delta_exec(), old(self).backup_exec()),
            final(self).backup_exec() == old(self).backup_exec(),
    {
        self.delta = self.delta_backup.duplicate();
    }

    /// Clears the accounts to register and the updated balances of the delta and of its backup; the
    /// updated shadow allocs sums stay.
    pub fn flush_delta(&mut self)
        ensures
            final(self)@ == (AccountCoinHolderView {
                delta: partly_flushed(old(self)@.delta),
                backup: partly_flushed(old(self)@.backup),
                ..old(self)@
            }),
            final(self).delta_exec().updated_shadow_allocs_sums == old(self).delta_exec().updated_shadow_allocs_sums,
    {
        self.delta.new_accounts_to_register.clear();
        self.delta.updated_account_balances.clear();
        self.delta_backup.new_accounts_to_register.clear();
        self.delta_backup.updated_account_balances.clear();
        assert(self@.delta =~= partly_flushed(old(self)@.delta));
        assert(self@.backup =~= partly_flushed(old(self)@.backup));
    }

    /// Clears the ephemeral changes and their backup entirely.
    pub(crate) fn clear_changes(&mut self)
        ensures
            final(self)@ == (AccountCoinHolderView { delta: AccountDeltaView::empty(), backup: AccountDeltaView::empty(), ..old(self)@ }),
    {
        self.delta.flush();
        self.delta_backup.flush();
    }

    /// Registers the new accounts permanently and appends their writes; the changes stay.
    pub(crate) fn register_new(&mut self, ops: &mut Vec<CHDiskOp>)
        ensures
            final(self)@ == (AccountCoinHolderView { accounts: accounts_registered(old(self)@.accounts, old(self).delta_exec()), ..old(self)@ }),
            final(self).delta_exec() == old(self).delta_exec(),
            final(ops)@ == old(ops)@ + ops_fold(old(self).delta_exec().new_accounts_to_register@, register_account_op()),
    {
        register_accounts(&mut self.in_memory, &self.delta.new_accounts_to_register, ops);
    }

    /// Stores the ephemeral balances permanently and appends their writes; the changes stay.
    pub(crate) fn store_balances(&mut self, ops: &mut Vec<CHDiskOp>) -> (r: Result<(), Key>)
        ensures
            final(self).delta_exec() == old(self).delta_exec(),
            final(self)@.delta == old(self)@.delta,
            final(self)@.backup == old(self)@.backup,
            match step_fold(old(self)@.accounts, old(self).delta_exec().updated_account_balances.raw_keys(), account_balance_step(old(self)@.delta.updated_account_balances)) {
                Ok(a) => r is Ok && final(self)@.accounts == a
                    && final(ops)@ == old(ops)@ + ops_fold(old(self).delta_exec().updated_account_balances.raw_keys(), account_balance_op(old(self)@.delta.updated_account_balances)),
                Err(k) => r == Err::<(), Key>(k) && crate::fold::extended_by_prefix(old(ops)@, final(ops)@,
                    ops_fold(old(self).delta_exec().updated_account_balances.raw_keys(), account_balance_op(old(self)@.delta.updated_account_balances)))
                    && exists|i: int| fold_stops_at(old(self)@.accounts, old(self).delta_exec().updated_account_balances.raw_keys(),
                        account_balance_step(old(self)@.delta.updated_account_balances), i, final(self)@.accounts)
                        && final(ops)@ == old(ops)@ + ops_fold(old(self).delta_exec().updated_account_balances.raw_keys().subrange(0, i),
                            account_balance_op(old(self)@.delta.updated_account_balances)),
            },
    {
        let ghost a0 = self@.accounts;
        let ghost ops0 = ops@;
        let r = store_account_balances(&mut self.in_memory, &self.delta.updated_account_balances, ops);
        proof {
            if r is Err {
                let kb = self.delta.updated_account_balances.raw_keys();
                let mb = self.delta.updated_account_balances@;
                let i = choose|i: int| fold_stops_at(a0, kb, account_balance_step(mb), i, self@.accounts)
                    && ops@ == ops0 + ops_fold(kb.subrange(0, i), account_balance_op(mb));
                assert(fold_stops_at(a0, kb, account_balance_step(mb), i, self@.accounts));
            }
        }
        r
    }

    /// Stores the ephemeral shadow allocs sums permanently and appends their writes; the changes stay.
    pub(crate) fn store_sums(&mut self, ops: &mut Vec<CHDiskOp>) -> (r: Result<(), Key>)
        ensures
            final(self).delta_exec() == old(self).delta_exec(),
            final(self)@.delta == old(self)@.delta,
            final(self)@.backup == old(self)@.backup,
            match step_fold(old(self)@.accounts, old(self).delta_exec().updated_shadow_allocs_sums.raw_keys(), account_sum_step(old(self)@.delta.updated_shadow_allocs_sums)) {
                Ok(a) => r is Ok && final(self)@.accounts == a
                    && final(ops)@ == old(ops)@ + ops_fold(old(self).delta_exec().updated_shadow_allocs_sums.raw_keys(), account_sum_op(old(self)@.delta.updated_shadow_allocs_sums)),
                Err(k) => r == Err::<(), Key>(k) && crate::fold::extended_by_prefix(old(ops)@, final(ops)@,
                    ops_fold(old(self).delta_exec().updated_shadow_allocs_sums.raw_keys(), account_sum_op(old(self)@.delta.updated_shadow_allocs_sums)))
                    && exists|i: int| fold_stops_at(old(self)@.accounts, old(self).delta_exec().updated_shadow_allocs_sums.raw_keys(),
                        account_sum_step(old(self)@.delta.updated_shadow_allocs_sums), i, final(self)@.accounts)
                        && final(ops)@ == old(ops)@ + ops_fold(old(self).delta_exec().updated_shadow_allocs_sums.raw_keys().subrange(0, i),
                            account_sum_op(old(self)@.delta.updated_shadow_allocs_sums)),
            },
    {
        let ghost a0 = self@.accounts;
        let ghost ops0 = ops@;
        let r = store_account_sums(&mut self.in_memory, &self.delta.updated_shadow_allocs_sums, ops);
        proof {
            if r is Err {
                let ks = self.delta.updated_shadow_allocs_sums.raw_keys();
                let ms = self.delta.updated_shadow_allocs_sums@;
                let i = choose|i: int| fold_stops_at(a0, ks, account_sum_step(ms), i, self@.accounts)
                    && ops@ == ops0 + ops_fold(ks.subrange(0, i), account_sum_op(ms));
                assert(fold_stops_at(a0, ks, account_sum_step(ms), i, self@.accounts));
            }
        }
        r
    }

    /// Applies the ephemeral changes to the permanent accounts and appends the writes to `ops`, in
    /// order: new accounts, balances, shadow allocs sums; then clears the accounts to register and the
    /// updated balances. An account with no permanent body stops it, with the writes produced so far a
    /// prefix of all of them and the state the one reached at the failing key.
    pub fn apply_changes(&mut self, ops: &mut Vec<CHDiskOp>) -> (r: Result<(), AccountCoinHolderApplyChangesError>)
        ensures
            final(ops)@.len() >= old(ops)@.len(),
            final(ops)@.subrange(0, old(ops)@.len() as int) == old(ops)@,
            match account_apply_outcome(old(self)@.accounts, old(self).delta_exec()) {
                Ok(a) => r is Ok
                    && final(self)@ == (AccountCoinHolderView {
                        accounts: a,
                        delta: partly_flushed(old(self)@.delta),
                        backup: partly_flushed(old(self)@.backup),
                    })
                    && final(ops)@ == old(ops)@ + account_apply_ops(old(self).delta_exec()),
                Err(k) => r == Err::<(), AccountCoinHolderApplyChangesError>(AccountCoinHolderApplyChangesError::UnableToGetAccountBody(k))
                    && final(self)@.delta == old(self)@.delta && final(self)@.backup == old(self)@.backup
                    && final(ops)@.skip(old(ops)@.len() as int).is_prefix_of(account_apply_ops(old(self).delta_exec()))
                    && account_apply_failed(old(self)@.accounts, old(self).delta_exec(), final(self)@.accounts, final(ops)@.skip(old(ops)@.len() as int)),
            },
    {
        let ghost d = self.delta;
        let ghost ops0 = ops@;
        register_accounts(&mut self.in_memory, &self.delta.new_accounts_to_register, ops);
        let ghost reg = ops_fold(d.new_accounts_to_register@, register_account_op());
        let ghost bal = ops_fold(d.updated_account_balances.raw_keys(), account_balance_op(d.updated_account_balances@));
        let ghost sums = ops_fold(d.updated_shadow_allocs_sums.raw_keys(), account_sum_op(d.updated_shadow_allocs_sums@));
        let ghost ops1 = ops@;
        let ghost a1 = self@.accounts;
        match store_account_balances(&mut self.in_memory, &self.delta.updated_account_balances, ops) {
            Err(k) => {
                proof {
                    crate::fold::lemma_produced_prefix(ops0, reg, ops@, bal, sums, account_apply_ops(d));
                    assert(ops@.subrange(0, ops0.len() as int) =~= ops0);
                    let kb = d.updated_account_balances.raw_keys();
                    let mb = d.updated_account_balances@;
                    let i = choose|i: int| fold_stops_at(a1, kb, account_balance_step(mb), i, self@.accounts)
                        && ops@ == ops1 + ops_fold(kb.subrange(0, i), account_balance_op(mb));
                    assert(ops@.skip(ops0.len() as int) =~= reg + ops_fold(kb.subrange(0, i), account_balance_op(mb)));
                }
                return Err(AccountCoinHolderApplyChangesError::UnableToGetAccountBody(k));
            },
            Ok(()) => {},
        }
        let ghost ops2 = ops@;
        let ghost a2 = self@.accounts;
        match store_account_sums(&mut self.in_memory, &self.delta.updated_shadow_allocs_sums, ops) {
            Err(k) => {
                proof {
                    assert(ops2 =~= ops0 + (reg + bal));
                    crate::fold::lemma_produced_prefix(ops0, reg + bal, ops@, sums, Seq::empty(), account_apply_ops(d));
                    assert(ops@.subrange(0, ops0.len() as int) =~= ops0);
                    let ks = d.updated_shadow_allocs_sums.raw_keys();
                    let ms = d.updated_shadow_allocs_sums@;
                    let i = choose|i: int| fold_stops_at(a2, ks, account_sum_step(ms), i, self@.accounts)
                        && ops@ == ops2 + ops_fold(ks.subrange(0, i), account_sum_op(ms));
                    assert(ops@.skip(ops0.len() as int) =~= reg + bal + ops_fold(ks.subrange(0, i), account_sum_op(ms)));
                }
                return Err(AccountCoinHolderApplyChangesError::UnableToGetAccountBody(k));
            },
            Ok(()) => {},
        }
        proof {
            assert(ops@ =~= ops0 + account_apply_ops(d));
            assert(ops@.subrange(0, ops0.len() as int) =~= ops0);
        }
        self.flush_delta();
        Ok(())
    }
}

} // verus!
