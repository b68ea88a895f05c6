use super::account_coin_holder::{accounts_registered, AccountCoinHolderView};
use super::apply::{
    account_balance_op, account_balance_step, account_sum_op, account_sum_step, contract_balance_op,
    contract_balance_step, dealloc_op, dealloc_step, register_account_op, register_contract_op, space_op, space_step,
    CHDiskOp,
};
use super::bodies::{CHAccountBodyView, CHContractBodyView};
use super::contract_coin_holder::ContractCoinHolderView;
use super::contract_specs::contracts_registered;
use super::deltas::{lists_view, spaces_view, AccountDelta, CHContractDelta};
use super::errors::{
    AccountShadowAllocsSumDownError, AccountShadowAllocsSumUpError, CHAccountApplyChangesError,
    CHAccountBalanceDownError, CHAccountBalanceUpError, CHApplyChangesError, CHContractApplyChangesError,
    CHContractBalanceDownError, CHContractBalanceUpError, ShadowAllocDownAllError, ShadowAllocDownError,
    ShadowAllocUpAllError, ShadowAllocUpError,
};
use super::shares::{moved, share};
use crate::fold::{fold_stops_at, ops_fold, step_fold};
use crate::keymap::Key;
use vstd::prelude::*;

verus! {

/// The abstract state of a coin holder: its account side and its contract side.
#[verifier::ext_equal]
pub struct CoinHolderView {
    /// Accounts, their ephemeral changes and the backup of those.
    pub accounts: AccountCoinHolderView,
    /// Contracts, their ephemeral changes and the backup of those.
    pub contracts: ContractCoinHolderView,
}

/// Increases the shadow allocs sums of listed accounts one by one by their amounts; the first
/// failure stops it, the accounts before it keeping their new sums.
pub open spec fn sums_up_fold(acc: AccountCoinHolderView, list: Seq<(Key, u128)>) -> (AccountCoinHolderView, Option<(Key, AccountShadowAllocsSumUpError)>)
    decreases list.len(),
{
    if list.len() == 0 {
        (acc, None)
    } else {
        let (s, e) = sums_up_fold(acc, list.drop_last());
        if e is Some {
            (s, e)
        } else {
            let (k, v) = list.last();
            match s.shadow_allocs_sum_up(k, v) {
                Ok(s2) => (s2, None),
                Err(er) => (s, Some((k, er))),
            }
        }
    }
}

/// Decreases the shadow allocs sums of listed accounts one by one by their amounts; the first
/// failure stops it, the accounts before it keeping their new sums.
pub open spec fn sums_down_fold(acc: AccountCoinHolderView, list: Seq<(Key, u128)>) -> (AccountCoinHolderView, Option<(Key, AccountShadowAllocsSumDownError)>)
    decreases list.len(),
{
    if list.len() == 0 {
        (acc, None)
    } else {
        let (s, e) = sums_down_fold(acc, list.drop_last());
        if e is Some {
            (s, e)
        } else {
            let (k, v) = list.last();
            match s.shadow_allocs_sum_down(k, v) {
                Ok(s2) => (s2, None),
                Err(er) => (s, Some((k, er))),
            }
        }
    }
}

impl CoinHolderView {
    /// The state with the given account side.
    pub open spec fn with_accounts(self, accounts: AccountCoinHolderView) -> Self {
        CoinHolderView { accounts, ..self }
    }

    /// The state with the given contract side.
    pub open spec fn with_contracts(self, contracts: ContractCoinHolderView) -> Self {
        CoinHolderView { contracts, ..self }
    }

    /// Outcome of increasing an account's balance.
    pub open spec fn account_balance_up(self, k: Key, up: u64) -> Result<Self, CHAccountBalanceUpError> {
        match self.accounts.balance(k@) {
            None => Err(CHAccountBalanceUpError::UnableToGetAccountBalance(k)),
            Some(b) => Ok(self.with_accounts(self.accounts.with_balance(k@, (b + up) as u64))),
        }
    }

    /// Outcome of decreasing an account's balance.
    pub open spec fn account_balance_down(self, k: Key, down: u64) -> Result<Self, CHAccountBalanceDownError> {
        match self.accounts.balance(k@) {
            None => Err(CHAccountBalanceDownError::UnableToGetAccountBalance(k)),
            Some(b) => if down > b {
                Err(CHAccountBalanceDownError::AccountBalanceWouldGoBelowZero(k, b, down))
            } else {
                Ok(self.with_accounts(self.accounts.with_balance(k@, (b - down) as u64)))
            },
        }
    }

    /// Outcome of increasing a contract's balance.
    pub open spec fn contract_balance_up(self, c: Key, up: u64) -> Result<Self, CHContractBalanceUpError> {
        match self.contracts.ledger.balance(c@) {
            None => Err(CHContractBalanceUpError::UnableToGetContractBalance(c)),
            Some(b) => Ok(self.with_contracts(self.contracts.with_ledger(self.contracts.ledger.with_balance(c@, (b + up) as u64)))),
        }
    }

    /// Outcome of decreasing a contract's balance.
    pub open spec fn contract_balance_down(self, c: Key, down: u64) -> Result<Self, CHContractBalanceDownError> {
        match self.contracts.ledger.balance(c@) {
            None => Err(CHContractBalanceDownError::UnableToGetContractBalance(c)),
            Some(b) => if down > b {
                Err(CHContractBalanceDownError::ContractBalanceWouldGoBelowZero(c, b, down))
            } else {
                Ok(self.with_contracts(self.contracts.with_ledger(self.contracts.ledger.with_balance(c@, (b - down) as u64))))
            },
        }
    }

    /// Outcome of increasing an account's allocation in a contract's shadow space, together with the
    /// account's shadow allocs sum: the state after the call and its result. A failure of the sum
    /// leaves the shadow space changed.
    pub open spec fn shadow_up(self, c: Key, a: Key, up: u64) -> (Self, Result<(), ShadowAllocUpError>) {
        let (l1, res) = self.contracts.ledger.shadow_up(c, a, up);
        let s1 = self.with_contracts(self.contracts.with_ledger(l1));
        match res {
            Err(e) => (s1, Err(e)),
            Ok(()) => match self.accounts.shadow_allocs_sum_up(a, (up * 100_000_000) as u128) {
                Ok(acc) => (s1.with_accounts(acc), Ok(())),
                Err(e) => (s1, Err(ShadowAllocUpError::AccountCoinHolderShadowAllocsSumUpError(c, a, e))),
            },
        }
    }

    /// The arithmetic of `shadow_up` stays in range.
    pub open spec fn shadow_up_safe(self, c: Key, a: Key, up: u64) -> bool {
        &&& self.contracts.ledger.shadow_up_safe(c, a, up)
        &&& self.accounts.shadow_allocs_sum(a@) matches Some(s) ==> s + up * 100_000_000 <= u128::MAX
    }

    /// Outcome of decreasing an account's allocation in a contract's shadow space, together with the
    /// account's shadow allocs sum: the state after the call and its result. A failure of the sum
    /// leaves the shadow space changed.
    pub open spec fn shadow_down(self, c: Key, a: Key, down: u64) -> (Self, Result<(), ShadowAllocDownError>) {
        let (l1, res) = self.contracts.ledger.shadow_down(c, a, down);
        let s1 = self.with_contracts(self.contracts.with_ledger(l1));
        match res {
            Err(e) => (s1, Err(e)),
            Ok(()) => match self.accounts.shadow_allocs_sum_down(a, (down * 100_000_000) as u128) {
                Ok(acc) => (s1.with_accounts(acc), Ok(())),
                Err(e) => (s1, Err(ShadowAllocDownError::AccountCoinHolderShadowAllocsSumDownError(c, a, e))),
            },
        }
    }

    /// Outcome of proportionally increasing every allocation of a contract's shadow space, then the
    /// shadow allocs sums of the moved accounts in the order given by `list` (the moved accounts with
    /// their shares); the result is the number of moved accounts.
    pub open spec fn shadow_up_all(self, c: Key, up: u64, list: Seq<(Key, u128)>) -> (Self, Result<u64, ShadowAllocUpAllError>) {
        let (l1, res) = self.contracts.ledger.shadow_up_all(c, up);
        let s1 = self.with_contracts(self.contracts.with_ledger(l1));
        match res {
            Err(e) => (s1, Err(e)),
            Ok(n) => {
                let (acc, e) = sums_up_fold(self.accounts, list);
                match e {
                    None => (s1.with_accounts(acc), Ok(n)),
                    Some((k, er)) => (s1.with_accounts(acc), Err(ShadowAllocUpAllError::AccountCoinHolderShadowAllocsSumUpError(c, k, er))),
                }
            },
        }
    }

    /// The arithmetic of `shadow_up_all` stays in range, the shadow allocs sums of the moved accounts
    /// included.
    pub open spec fn shadow_up_all_safe(self, c: Key, up: u64) -> bool {
        &&& self.contracts.ledger.shadow_up_all_safe(c, up)
        &&& self.contracts.ledger.space(c@) matches Some(sp) ==> forall|a: Seq<u8>| #[trigger] moved(sp.allocs, up, sp.allocs_sum).contains(a)
            ==> (self.accounts.shadow_allocs_sum(a) matches Some(s) ==> s + share(sp.allocs[a], up, sp.allocs_sum) <= u128::MAX)
    }

    /// Outcome of proportionally decreasing every allocation of a contract's shadow space, then the
    /// shadow allocs sums of the moved accounts in the order given by `list` (the moved accounts with
    /// their shares); the result is the number of moved accounts.
    pub open spec fn shadow_down_all(self, c: Key, down: u64, list: Seq<(Key, u128)>) -> (Self, Result<u64, ShadowAllocDownAllError>) {
        let (l1, res) = self.contracts.ledger.shadow_down_all(c, down);
        let s1 = self.with_contracts(self.contracts.with_ledger(l1));
        match res {
            Err(e) => (s1, Err(e)),
            Ok(n) => {
                let (acc, e) = sums_down_fold(self.accounts, list);
                match e {
                    None => (s1.with_accounts(acc), Ok(n)),
                    Some((k, er)) => (s1.with_accounts(acc), Err(ShadowAllocDownAllError::AccountCoinHolderShadowAllocsSumDownError(c, k, er))),
                }
            },
        }
    }
}

/// Every write of applying a coin holder's changes, in order, as if no step failed: new accounts,
/// new contracts, account balances, contract balances, account shadow allocs sums, shadow spaces,
/// deallocations.
pub open spec fn holder_apply_ops(da: AccountDelta, dc: CHContractDelta) -> Seq<CHDiskOp> {
    ops_fold(da.new_accounts_to_register@, register_account_op())
        + ops_fold(dc.new_contracts_to_register@, register_contract_op())
        + ops_fold(da.updated_account_balances.raw_keys(), account_balance_op(da.updated_account_balances@))
        + ops_fold(dc.updated_contract_balances.raw_keys(), contract_balance_op(dc.updated_contract_balances@))
        + ops_fold(da.updated_shadow_allocs_sums.raw_keys(), account_sum_op(da.updated_shadow_allocs_sums@))
        + ops_fold(dc.updated_shadow_spaces.raw_keys(), space_op(dc.updated_shadow_spaces@))
        + ops_fold(dc.deallocs_list.raw_keys(), dealloc_op(dc.deallocs_list@))
}

/// What applying a coin holder's changes does to its permanent accounts and contracts, step by
/// step in the order of the writes; the first missing body fails with it.
pub open spec fn holder_apply_outcome(
    accounts: Map<Seq<u8>, CHAccountBodyView>,
    contracts: Map<Seq<u8>, CHContractBodyView>,
    da: AccountDelta,
    dc: CHContractDelta,
) -> Result<(Map<Seq<u8>, CHAccountBodyView>, Map<Seq<u8>, CHContractBodyView>), CHApplyChangesError> {
    let a1 = accounts_registered(accounts, da);
    let c1 = contracts_registered(contracts, dc);
    match step_fold(a1, da.updated_account_balances.raw_keys(), account_balance_step(da.updated_account_balances@)) {
        Err(k) => Err(CHApplyChangesError::AccountApplyChangesError(CHAccountApplyChangesError::UnableToGetPermanentAccountBody(k))),
        Ok(a2) => match step_fold(c1, dc.updated_contract_balances.raw_keys(), contract_balance_step(dc.updated_contract_balances@)) {
            Err(c) => Err(CHApplyChangesError::ContractApplyChangesError(CHContractApplyChangesError::UnableToGetPermanentContractBody(c))),
            Ok(c2) => match step_fold(a2, da.updated_shadow_allocs_sums.raw_keys(), account_sum_step(da.updated_shadow_allocs_sums@)) {
                Err(k) => Err(CHApplyChangesError::AccountApplyChangesError(CHAccountApplyChangesError::UnableToGetPermanentAccountBody(k))),
                Ok(a3) => match step_fold(c2, dc.updated_shadow_spaces.raw_keys(), space_step(spaces_view(dc.updated_shadow_spaces@))) {
                    Err(c) => Err(CHApplyChangesError::ContractApplyChangesError(CHContractApplyChangesError::UnableToGetPermanentContractBody(c))),
                    Ok(c3) => match step_fold(c3, dc.deallocs_list.raw_keys(), dealloc_step(lists_view(dc.deallocs_list@))) {
                        Err(c) => Err(CHApplyChangesError::ContractApplyChangesError(CHContractApplyChangesError::UnableToGetPermanentContractBody(c))),
                        Ok(c4) => Ok((a3, c4)),
                    },
                },
            },
        },
    }
}

/// What a failed application of a coin holder's changes leaves: the accounts and contracts of the
/// failing step before the failing key, the other side as the steps before left it, and the writes
/// up to the failing key's.
pub open spec fn holder_apply_failed(
    accounts: Map<Seq<u8>, CHAccountBodyView>,
    contracts: Map<Seq<u8>, CHContractBodyView>,
    da: AccountDelta,
    dc: CHContractDelta,
    new_accounts: Map<Seq<u8>, CHAccountBodyView>,
    new_contracts: Map<Seq<u8>, CHContractBodyView>,
    produced: Seq<CHDiskOp>,
) -> bool {
    let a1 = accounts_registered(accounts, da);
    let c1 = contracts_registered(contracts, dc);
    let kab = da.updated_account_balances.raw_keys();
    let mab = da.updated_account_balances@;
    let kcb = dc.updated_contract_balances.raw_keys();
    let mcb = dc.updated_contract_balances@;
    let kas = da.updated_shadow_allocs_sums.raw_keys();
    let mas = da.updated_shadow_allocs_sums@;
    let ks = dc.updated_shadow_spaces.raw_keys();
    let ms = dc.updated_shadow_spaces@;
    let kd = dc.deallocs_list.raw_keys();
    let md = dc.deallocs_list@;
    let o2 = ops_fold(da.new_accounts_to_register@, register_account_op()) + ops_fold(dc.new_contracts_to_register@, register_contract_op());
    let o3 = o2 + ops_fold(kab, account_balance_op(mab));
    let o4 = o3 + ops_fold(kcb, contract_balance_op(mcb));
    let o5 = o4 + ops_fold(kas, account_sum_op(mas));
    let o6 = o5 + ops_fold(ks, space_op(ms));
    match step_fold(a1, kab, account_balance_step(mab)) {
        Err(_) => new_contracts == c1 && exists|i: int| fold_stops_at(a1, kab, account_balance_step(mab), i, new_accounts)
            && produced == o2 + ops_fold(kab.subrange(0, i), account_balance_op(mab)),
        Ok(a2) => match step_fold(c1, kcb, contract_balance_step(mcb)) {
            Err(_) => new_accounts == a2 && exists|i: int| fold_stops_at(c1, kcb, contract_balance_step(mcb), i, new_contracts)
                && produced == o3 + ops_fold(kcb.subrange(0, i), contract_balance_op(mcb)),
            Ok(c2) => match step_fold(a2, kas, account_sum_step(mas)) {
                Err(_) => new_contracts == c2 && exists|i: int| fold_stops_at(a2, kas, account_sum_step(mas), i, new_accounts)
                    && produced == o4 + ops_fold(kas.subrange(0, i), account_sum_op(mas)),
                Ok(a3) => new_accounts == a3 && match step_fold(c2, ks, space_step(spaces_view(ms))) {
                    Err(_) => exists|i: int| fold_stops_at(c2, ks, space_step(spaces_view(ms)), i, new_contracts)
                        && produced == o5 + ops_fold(ks.subrange(0, i), space_op(ms)),
                    Ok(c3) => match step_fold(c3, kd, dealloc_step(lists_view(md))) {
                        Err(_) => exists|i: int| fold_stops_at(c3, kd, dealloc_step(lists_view(md)), i, new_contracts)
                            && produced == o6 + ops_fold(kd.subrange(0, i), dealloc_op(md)),
                        Ok(_) => true,
                    },
                },
            },
        },
    }
}

} // verus!
