use super::account_coin_holder::{follows_outcome, AccountCoinHolder, AccountCoinHolderView};
use super::apply::{
    account_balance_op, account_sum_op, contract_balance_op, contracts_view, dealloc_op, register_account_op,
    register_contract_op, register_contracts, space_op, store_contract_balances, store_deallocs, store_spaces, CHDiskOp,
};
use super::bodies::{CHAccountBody, CHContractBody};
use super::coin_holder_specs::{holder_apply_failed, holder_apply_ops, holder_apply_outcome, sums_down_fold, sums_up_fold, CoinHolderView};
use super::contract_coin_holder::ContractCoinHolderView;
use super::contract_ledger::{ContractLedger, ContractLedgerView};
use super::deltas::{AccountDelta, AccountDeltaView, CHContractDelta, CHContractDeltaView};
use super::errors::{
    AccountCoinHolderRegisterError, AccountShadowAllocsSumDownError, AccountShadowAllocsSumUpError,
    CHAccountApplyChangesError, CHAccountBalanceDownError, CHAccountBalanceUpError, CHApplyChangesError,
    CHContractApplyChangesError, CHContractBalanceDownError, CHContractBalanceUpError,
    ContractCoinHolderRegisterContractError, ShadowAllocAccountError, ShadowAllocDownAllError, ShadowAllocDownError,
    ShadowAllocUpAllError, ShadowAllocUpError, ShadowDeallocAccountError,
};
use super::shares::{distinct_keys, moved, positive_shares, share};
use crate::fold::{fold_stops_at, lemma_produced_prefix, ops_fold};
use crate::keymap::{key_views, Key, KeyMap};
use vstd::prelude::*;

verus! {

/// Keeps account and contract balances and shadow space allocations, with ephemeral changes on top.
pub struct CoinHolder {
    accounts: AccountCoinHolder,
    contracts: ContractLedger,
    backup_of_delta_contracts: CHContractDelta,
}

impl View for CoinHolder {
    type V = CoinHolderView;

    closed spec fn view(&self) -> CoinHolderView {
        CoinHolderView {
            accounts: self.accounts@,
            contracts: ContractCoinHolderView { ledger: self.contracts@, backup: self.backup_of_delta_contracts@ },
        }
    }
}

impl CoinHolder {
    /// The order of the allocations of a contract's current shadow space.
    pub closed spec fn space_order(&self, c: Seq<u8>) -> Seq<Key> {
        self.contracts.space_order(c)
    }

    /// The account changes as held, with their orders.
    pub closed spec fn account_delta_exec(&self) -> AccountDelta {
        self.accounts.delta_exec()
    }

    /// The contract changes as held, with their orders.
    pub closed spec fn contract_delta_exec(&self) -> CHContractDelta {
        self.contracts.delta
    }

    /// The held changes are those of the view.
    pub proof fn lemma_delta_exec(&self)
        ensures
            self.account_delta_exec()@ == self@.accounts.delta,
            self.contract_delta_exec()@ == self@.contracts.ledger.delta,
    {
        self.accounts.lemma_delta_exec();
    }

    /// A coin holder over the given permanent bodies, with no ephemeral change.
    pub fn from_bodies(accounts: KeyMap<CHAccountBody>, contracts: KeyMap<CHContractBody>) -> (r: Self)
        ensures
            r@.accounts == (AccountCoinHolderView {
                accounts: super::apply::accounts_view(accounts@),
                delta: AccountDeltaView::empty(),
                backup: AccountDeltaView::empty(),
            }),
            r@.contracts == (ContractCoinHolderView {
                ledger: ContractLedgerView { contracts: contracts_view(contracts@), delta: CHContractDeltaView::empty() },
                backup: CHContractDeltaView::empty(),
            }),
    {
        CoinHolder {
            accounts: AccountCoinHolder::from_bodies(accounts),
            contracts: ContractLedger { in_memory: contracts, delta: CHContractDelta::new() },
            backup_of_delta_contracts: CHContractDelta::new(),
        }
    }

    /// Prepares the coin holder before each execution: backs up both deltas.
    pub fn pre_execution(&mut self)
        ensures
            final(self)@ == (CoinHolderView {
                accounts: AccountCoinHolderView { backup: old(self)@.accounts.delta, ..old(self)@.accounts },
                contracts: ContractCoinHolderView { backup: old(self)@.contracts.ledger.delta, ..old(self)@.contracts },
            }),
    {
        self.accounts.pre_execution();
        self.backup_of_delta_contracts = self.contracts.delta.duplicate();
    }

    /// Whether an account is permanently registered.
    pub fn is_account_registered(&self, account_key: Key) -> (r: bool)
        ensures
            r == self@.accounts.accounts.dom().contains(account_key@),
    {
        self.accounts.is_account_registered(account_key)
    }

    /// Whether a contract is permanently registered.
    pub fn is_contract_registered(&self, contract_id: Key) -> (r: bool)
        ensures
            r == self@.contracts.ledger.contracts.dom().contains(contract_id@),
    {
        self.contracts.in_memory.contains_key(&contract_id)
    }

    /// An account's balance in satoshis.
    pub fn get_account_balance(&self, account_key: Key) -> (r: Option<u64>)
        ensures
            r == self@.accounts.balance(account_key@),
    {
        self.accounts.get_account_balance(account_key)
    }

    /// A contract's balance in satoshis.
    pub fn get_contract_balance(&self, contract_id: Key) -> (r: Option<u64>)
        ensures
            r == self@.contracts.ledger.balance(contract_id@),
    {
        self.contracts.balance(contract_id)
    }

    /// An account's shadow allocs sum over all contracts, in sati-satoshis.
    pub fn get_account_shadow_allocs_sum_of_all_contracts_in_sati_satoshis(&self, account_key: Key) -> (r: Option<u128>)
        ensures
            r == self@.accounts.shadow_allocs_sum(account_key@),
    {
        self.accounts.get_account_shadow_allocs_sum_in_sati_satoshis(account_key)
    }

    /// An account's shadow allocs sum over all contracts, in whole satoshis, rounded down.
    pub fn get_account_shadow_allocs_sum_of_all_contracts_in_satoshis(&self, account_key: Key) -> (r: Option<u64>)
        ensures
            r == match self@.accounts.shadow_allocs_sum(account_key@) {
                Some(v) => Some((v / 100_000_000) as u64),
                None => None::<u64>,
            },
    {
        self.accounts.get_account_shadow_allocs_sum_in_satoshis(account_key)
    }

    /// A contract's shadow allocs sum in satoshis.
    pub fn get_contract_allocs_sum_in_satoshis(&self, contract_id: Key) -> (r: Option<u64>)
        ensures
            r == match self@.contracts.ledger.space(contract_id@) {
                Some(sp) => Some(sp.allocs_sum),
                None => None::<u64>,
            },
    {
        match self.contracts.space(contract_id) {
            Some(sp) => Some(sp.allocs_sum()),
            None => None,
        }
    }

    /// The number of allocations of a contract's shadow space.
    pub fn get_contract_num_allocs(&self, contract_id: Key) -> (r: Option<u64>)
        ensures
            r == match self@.contracts.ledger.space(contract_id@) {
                Some(sp) => Some(sp.allocs.dom().len() as u64),
                None => None::<u64>,
            },
            self@.contracts.ledger.space(contract_id@) matches Some(sp) ==> sp.allocs.dom().finite() && sp.allocs.dom().len() <= u64::MAX,
    {
        match self.contracts.space(contract_id) {
            Some(sp) => Some(sp.allocs_len() as u64),
            None => None,
        }
    }

    /// An account's allocation in a contract's shadow space, in sati-satoshis.
    pub fn get_account_shadow_alloc_value_of_a_contract_in_sati_satoshis(&self, contract_id: Key, account_key: Key) -> (r: Option<u128>)
        ensures
            r == self@.contracts.ledger.alloc_value(contract_id@, account_key@),
    {
        self.contracts.alloc_value(contract_id, account_key)
    }

    /// An account's allocation in a contract's shadow space, in whole satoshis, rounded down.
    pub fn get_account_shadow_alloc_value_of_a_contract_in_satoshis(&self, contract_id: Key, account_key: Key) -> (r: Option<u64>)
        ensures
            r == match self@.contracts.ledger.alloc_value(contract_id@, account_key@) {
                Some(v) => Some((v / 100_000_000) as u64),
                None => None::<u64>,
            },
    {
        match self.contracts.alloc_value(contract_id, account_key) {
            Some(v) => Some((v / 100_000_000) as u64),
            None => None,
        }
    }

    /// Registers an account, to be saved by `apply_changes`.
    pub fn register_account(&mut self, account_key: Key) -> (r: Result<(), AccountCoinHolderRegisterError>)
        ensures
            final(self)@.contracts == old(self)@.contracts,
            follows_outcome(old(self)@.accounts, final(self)@.accounts, r, old(self)@.accounts.register_account(account_key)),
    {
        self.accounts.register_account(account_key)
    }

    /// Registers a contract, to be saved by `apply_changes`.
    pub fn register_contract(&mut self, contract_id: Key) -> (r: Result<(), ContractCoinHolderRegisterContractError>)
        ensures
            final(self)@.accounts == old(self)@.accounts,
            final(self)@.contracts.backup == old(self)@.contracts.backup,
            match old(self)@.contracts.ledger.register_contract(contract_id) {
                Ok(l) => r is Ok && final(self)@.contracts.ledger == l,
                Err(e) => r == Err::<(), ContractCoinHolderRegisterContractError>(e) && final(self)@.contracts.ledger == old(self)@.contracts.ledger,
            },
    {
        self.contracts.register_contract(contract_id)
    }

    /// Increases an account's balance, to be saved by `apply_changes`.
    pub fn account_balance_up(&mut self, account_key: Key, up_value_in_satoshis: u64) -> (r: Result<(), CHAccountBalanceUpError>)
        requires
            old(self)@.accounts.balance(account_key@) matches Some(b) ==> b + up_value_in_satoshis <= u64::MAX,
        ensures
            follows_outcome(old(self)@, final(self)@, r, old(self)@.account_balance_up(account_key, up_value_in_satoshis)),
    {
        match self.accounts.account_balance_up(account_key, up_value_in_satoshis) {
            Ok(()) => Ok(()),
            Err(_) => Err(CHAccountBalanceUpError::UnableToGetAccountBalance(account_key)),
        }
    }

    /// Decreases an account's balance, to be saved by `apply_changes`.
    pub fn account_balance_down(&mut self, account_key: Key, down_value_in_satoshis: u64) -> (r: Result<(), CHAccountBalanceDownError>)
        ensures
            follows_outcome(old(self)@, final(self)@, r, old(self)@.account_balance_down(account_key, down_value_in_satoshis)),
    {
        match self.accounts.account_balance_down(account_key, down_value_in_satoshis) {
            Ok(()) => Ok(()),
            Err(super::errors::AccountBalanceDownError::UnableToGetAccountBalance(k)) => Err(CHAccountBalanceDownError::UnableToGetAccountBalance(k)),
            Err(super::errors::AccountBalanceDownError::AccountBalanceWouldGoBelowZero(k, b, d)) => Err(CHAccountBalanceDownError::AccountBalanceWouldGoBelowZero(k, b, d)),
        }
    }

    /// Increases a contract's balance, to be saved by `apply_changes`.
    pub fn contract_balance_up(&mut self, contract_id: Key, up_value_in_satoshis: u64) -> (r: Result<(), CHContractBalanceUpError>)
        requires
            old(self)@.contracts.ledger.balance(contract_id@) matches Some(b) ==> b + up_value_in_satoshis <= u64::MAX,
        ensures
            follows_outcome(old(self)@, final(self)@, r, old(self)@.contract_balance_up(contract_id, up_value_in_satoshis)),
    {
        let b = match self.contracts.balance(contract_id) {
            Some(b) => b,
            None => {
                return Err(CHContractBalanceUpError::UnableToGetContractBalance(contract_id));
            },
        };
        self.contracts.set_balance(contract_id, b + up_value_in_satoshis);
        assert(self@ =~= old(self)@.contract_balance_up(contract_id, up_value_in_satoshis)->Ok_0);
        Ok(())
    }

    /// Decreases a contract's balance, to be saved by `apply_changes`.
    pub fn contract_balance_down(&mut self, contract_id: Key, down_value_in_satoshis: u64) -> (r: Result<(), CHContractBalanceDownError>)
        ensures
            follows_outcome(old(self)@, final(self)@, r, old(self)@.contract_balance_down(contract_id, down_value_in_satoshis)),
    {
        let b = match self.contracts.balance(contract_id) {
            Some(b) => b,
            None => {
                return Err(CHContractBalanceDownError::UnableToGetContractBalance(contract_id));
            },
        };
        if down_value_in_satoshis > b {
            return Err(CHContractBalanceDownError::ContractBalanceWouldGoBelowZero(contract_id, b, down_value_in_satoshis));
        }
        self.contracts.set_balance(contract_id, b - down_value_in_satoshis);
        assert(self@ =~= old(self)@.contract_balance_down(contract_id, down_value_in_satoshis)->Ok_0);
        Ok(())
    }

    /// Allocates an account, with a zero value, in a contract's shadow space; the account is added to
    /// the contract's list of new allocations.
    pub fn shadow_alloc_account(&mut self, contract_id: Key, account_key: Key) -> (r: Result<(), ShadowAllocAccountError>)
        ensures
            final(self)@.accounts == old(self)@.accounts,
            final(self)@.contracts.backup == old(self)@.contracts.backup,
            match old(self)@.contracts.ledger.shadow_alloc_account(contract_id, account_key, true) {
                Ok(l) => r is Ok && final(self)@.contracts.ledger == l,
                Err(e) => r == Err::<(), ShadowAllocAccountError>(e) && final(self)@.contracts.ledger == old(self)@.contracts.ledger,
            },
    {
        self.contracts.shadow_alloc_account(contract_id, account_key, true)
    }

    /// Deallocates an account, whose allocation must be zero, from a contract's shadow space; the
    /// contract's list of deallocations is created when missing.
    pub fn shadow_dealloc_account(&mut self, contract_id: Key, account_key: Key) -> (r: Result<(), ShadowDeallocAccountError>)
        ensures
            final(self)@.accounts == old(self)@.accounts,
            final(self)@.contracts.backup == old(self)@.contracts.backup,
            match old(self)@.contracts.ledger.shadow_dealloc_account(contract_id, account_key, true) {
                Ok(l) => r is Ok && final(self)@.contracts.ledger == l,
                Err(e) => r == Err::<(), ShadowDeallocAccountError>(e) && final(self)@.contracts.ledger == old(self)@.contracts.ledger,
            },
    {
        self.contracts.shadow_dealloc_account(contract_id, account_key, true)
    }

    /// Increases an account's allocation in a contract's shadow space and the account's shadow allocs
    /// sum, to be saved by `apply_changes`.
    pub fn shadow_up(&mut self, contract_id: Key, account_key: Key, up_value_in_satoshis: u64) -> (r: Result<(), ShadowAllocUpError>)
        requires
            old(self)@.shadow_up_safe(contract_id, account_key, up_value_in_satoshis),
        ensures
            final(self)@ == old(self)@.shadow_up(contract_id, account_key, up_value_in_satoshis).0,
            r == old(self)@.shadow_up(contract_id, account_key, up_value_in_satoshis).1,
    {
        match self.contracts.shadow_up(contract_id, account_key, up_value_in_satoshis) {
            Err(e) => {
                return Err(e);
            },
            Ok(()) => {},
        }
        let up_sati: u128 = (up_value_in_satoshis as u128) * 100_000_000;
        match self.accounts.account_shadow_allocs_sum_up(account_key, up_sati) {
            Err(e) => Err(ShadowAllocUpError::AccountCoinHolderShadowAllocsSumUpError(contract_id, account_key, e)),
            Ok(()) => Ok(()),
        }
    }

    /// Decreases an account's allocation in a contract's shadow space and the account's shadow allocs
    /// sum, to be saved by `apply_changes`.
    pub fn shadow_down(&mut self, contract_id: Key, account_key: Key, down_value_in_satoshis: u64) -> (r: Result<(), ShadowAllocDownError>)
        requires
            old(self)@.contracts.ledger.shadow_down_safe(contract_id, account_key, down_value_in_satoshis),
        ensures
            final(self)@ == old(self)@.shadow_down(contract_id, account_key, down_value_in_satoshis).0,
            r == old(self)@.shadow_down(contract_id, account_key, down_value_in_satoshis).1,
    {
        match self.contracts.shadow_down(contract_id, account_key, down_value_in_satoshis) {
            Err(e) => {
                return Err(e);
            },
            Ok(()) => {},
        }
        let down_sati: u128 = (down_value_in_satoshis as u128) * 100_000_000;
        match self.accounts.account_shadow_allocs_sum_down(account_key, down_sati) {
            Err(e) => Err(ShadowAllocDownError::AccountCoinHolderShadowAllocsSumDownError(contract_id, account_key, e)),
            Ok(()) => Ok(()),
        }
    }

    /// Proportionally increases every allocation of a contract's shadow space, then the shadow allocs
    /// sums of the moved accounts in allocation order, to be saved by `apply_changes`; returns the
    /// number of moved accounts.
    pub fn shadow_up_all(&mut self, contract_id: Key, up_value_in_satoshis: u64) -> (r: Result<u64, ShadowAllocUpAllError>)
        requires
            old(self)@.shadow_up_all_safe(contract_id, up_value_in_satoshis),
        ensures
            ({
                let list = positive_shares(
                    old(self).space_order(contract_id@),
                    old(self)@.contracts.ledger.space(contract_id@)->Some_0.allocs,
                    up_value_in_satoshis,
                    old(self)@.contracts.ledger.space(contract_id@)->Some_0.allocs_sum,
                );
                &&& final(self)@ == old(self)@.shadow_up_all(contract_id, up_value_in_satoshis, list).0
                &&& r == old(self)@.shadow_up_all(contract_id, up_value_in_satoshis, list).1
            }),
    {
        let ghost sp0 = self@.contracts.ledger.space(contract_id@)->Some_0;
        let ghost order = self.contracts.space_order(contract_id@);
        let ghost acc0 = self@.accounts;
        let list = match self.contracts.shadow_up_all(contract_id, up_value_in_satoshis) {
            Err(e) => {
                return Err(e);
            },
            Ok(list) => list,
        };
        let n = list.len();
        let mut i: usize = 0;
        assert(list@.subrange(0, 0) =~= Seq::<(Key, u128)>::empty());
        assert(list@ == positive_shares(order, sp0.allocs, up_value_in_satoshis, sp0.allocs_sum));
        assert(distinct_keys(list@));
        assert(sums_up_fold(acc0, list@.subrange(0, 0)) == (self@.accounts, None::<(Key, AccountShadowAllocsSumUpError)>));
        assert(self@.contracts == (ContractCoinHolderView { ledger: old(self)@.contracts.ledger.shadow_up_all(contract_id, up_value_in_satoshis).0, ..old(self)@.contracts }));
        while i < n
            invariant
                0 <= i <= n,
                n == list@.len(),
                list@ == positive_shares(order, sp0.allocs, up_value_in_satoshis, sp0.allocs_sum),
                distinct_keys(list@),
                forall|j: int| 0 <= j < list@.len() ==> {
                    let (k, v) = #[trigger] list@[j];
                    &&& v == share(sp0.allocs[k@], up_value_in_satoshis, sp0.allocs_sum)
                    &&& share(sp0.allocs[k@], up_value_in_satoshis, sp0.allocs_sum) > 0
                    &&& sp0.allocs.dom().contains(k@)
                },
                forall|a: Seq<u8>| #[trigger] moved(sp0.allocs, up_value_in_satoshis, sp0.allocs_sum).contains(a)
                    ==> (acc0.shadow_allocs_sum(a) matches Some(s) ==> s + share(sp0.allocs[a], up_value_in_satoshis, sp0.allocs_sum) <= u128::MAX),
                sums_up_fold(acc0, list@.subrange(0, i as int)) == (self@.accounts, None::<(Key, AccountShadowAllocsSumUpError)>),
                forall|j: int| i <= j < list@.len() ==> #[trigger] self@.accounts.shadow_allocs_sum(list@[j].0@) == acc0.shadow_allocs_sum(list@[j].0@),
                self@.contracts == (ContractCoinHolderView { ledger: old(self)@.contracts.ledger.shadow_up_all(contract_id, up_value_in_satoshis).0, ..old(self)@.contracts }),
                old(self)@.contracts.ledger.shadow_up_all(contract_id, up_value_in_satoshis).1 == Ok::<u64, ShadowAllocUpAllError>(n as u64),
                order == old(self).space_order(contract_id@),
                sp0 == old(self)@.contracts.ledger.space(contract_id@)->Some_0,
                acc0 == old(self)@.accounts,
            decreases n - i,
        {
            let (k, v) = list[i];
            proof {
                assert(list@.subrange(0, i + 1).drop_last() =~= list@.subrange(0, i as int));
                assert(list@[i as int] == (k, v));
                assert(list@.subrange(0, i + 1).last() == (k, v));
                assert(moved(sp0.allocs, up_value_in_satoshis, sp0.allocs_sum).contains(k@));
                assert(self@.accounts.shadow_allocs_sum(list@[i as int].0@) == acc0.shadow_allocs_sum(list@[i as int].0@));
            }
            let ghost before = self@.accounts;
            match self.accounts.account_shadow_allocs_sum_up(k, v) {
                Err(e) => {
                    proof {
                        assert(sums_up_fold(acc0, list@.subrange(0, i + 1)) == (before, Some((k, e))));
                        lemma_fold_stops_up(acc0, list@, i as int + 1);
                        assert(sums_up_fold(acc0, list@) == (before, Some((k, e))));
                        assert(self@.accounts == before);
                    }
                    return Err(ShadowAllocUpAllError::AccountCoinHolderShadowAllocsSumUpError(contract_id, k, e));
                },
                Ok(()) => {},
            }
            proof {
                let sv = before.shadow_allocs_sum(k@)->Some_0;
                assert(before.shadow_allocs_sum(k@) is Some);
                assert(self@.accounts == before.with_shadow_allocs_sum(k@, (sv + v) as u128));
                assert(sums_up_fold(acc0, list@.subrange(0, i + 1)) == (self@.accounts, None::<(Key, AccountShadowAllocsSumUpError)>));
                assert forall|j: int| i + 1 <= j < list@.len() implies #[trigger] self@.accounts.shadow_allocs_sum(list@[j].0@) == acc0.shadow_allocs_sum(list@[j].0@) by {
                    assert(list@[j].0@ != list@[i as int].0@);
                    assert(before.shadow_allocs_sum(list@[j].0@) == acc0.shadow_allocs_sum(list@[j].0@));
                }
            }
            i = i + 1;
        }
        proof {
            assert(list@.subrange(0, n as int) =~= list@);
        }
        Ok(n as u64)
    }

    /// Proportionally decreases every allocation of a contract's shadow space, then the shadow allocs
    /// sums of the moved accounts in allocation order, to be saved by `apply_changes`; returns the
    /// number of moved accounts.
    pub fn shadow_down_all(&mut self, contract_id: Key, down_value_in_satoshis: u64) -> (r: Result<u64, ShadowAllocDownAllError>)
        requires
            old(self)@.contracts.ledger.shadow_down_all_safe(contract_id, down_value_in_satoshis),
        ensures
            ({
                let list = positive_shares(
                    old(self).space_order(contract_id@),
                    old(self)@.contracts.ledger.space(contract_id@)->Some_0.allocs,
                    down_value_in_satoshis,
                    old(self)@.contracts.ledger.space(contract_id@)->Some_0.allocs_sum,
                );
                &&& final(self)@ == old(self)@.shadow_down_all(contract_id, down_value_in_satoshis, list).0
                &&& r == old(self)@.shadow_down_all(contract_id, down_value_in_satoshis, list).1
            }),
    {
        let ghost sp0 = self@.contracts.ledger.space(contract_id@)->Some_0;
        let ghost order = self.contracts.space_order(contract_id@);
        let ghost acc0 = self@.accounts;
        let list = match self.contracts.shadow_down_all(contract_id, down_value_in_satoshis) {
            Err(e) => {
                return Err(e);
            },
            Ok(list) => list,
        };
        let n = list.len();
        let mut i: usize = 0;
        assert(list@.subrange(0, 0) =~= Seq::<(Key, u128)>::empty());
        while i < n
            invariant
                0 <= i <= n,
                n == list@.len(),
                list@ == positive_shares(order, sp0.allocs, down_value_in_satoshis, sp0.allocs_sum),
                sums_down_fold(acc0, list@.subrange(0, i as int)) == (self@.accounts, None::<(Key, AccountShadowAllocsSumDownError)>),
                self@.contracts == (ContractCoinHolderView { ledger: old(self)@.contracts.ledger.shadow_down_all(contract_id, down_value_in_satoshis).0, ..old(self)@.contracts }),
                old(self)@.contracts.ledger.shadow_down_all(contract_id, down_value_in_satoshis).1 == Ok::<u64, ShadowAllocDownAllError>(n as u64),
                order == old(self).space_order(contract_id@),
                sp0 == old(self)@.contracts.ledger.space(contract_id@)->Some_0,
                acc0 == old(self)@.accounts,
            decreases n - i,
        {
            let (k, v) = list[i];
            proof {
                assert(list@.subrange(0, i + 1).drop_last() =~= list@.subrange(0, i as int));
                assert(list@.subrange(0, i + 1).last() == (k, v));
            }
            let ghost before = self@.accounts;
            match self.accounts.account_shadow_allocs_sum_down(k, v) {
                Err(e) => {
                    proof {
                        assert(sums_down_fold(acc0, list@.subrange(0, i + 1)) == (before, Some((k, e))));
                        lemma_fold_stops_down(acc0, list@, i as int + 1);
                    }
                    return Err(ShadowAllocDownAllError::AccountCoinHolderShadowAllocsSumDownError(contract_id, k, e));
                },
                Ok(()) => {},
            }
            i = i + 1;
        }
        proof {
            assert(list@.subrange(0, n as int) =~= list@);
        }
        Ok(n as u64)
    }

    /// Reverts the ephemeral changes of the last execution.
    pub fn rollback_last(&mut self)
        ensures
            final(self)@ == (CoinHolderView {
                accounts: AccountCoinHolderView { delta: old(self)@.accounts.backup, ..old(self)@.accounts },
                contracts: ContractCoinHolderView {
                    ledger: ContractLedgerView { delta: old(self)@.contracts.backup, ..old(self)@.contracts.ledger },
                    ..old(self)@.contracts
                },
            }),
    {
        self.accounts.rollback_last();
        self.contracts.delta = self.backup_of_delta_contracts.duplicate();
    }

    /// Clears all ephemeral changes and their backups.
    pub fn flush_delta(&mut self)
        ensures
            final(self)@ == (CoinHolderView {
                accounts: AccountCoinHolderView { delta: AccountDeltaView::empty(), backup: AccountDeltaView::empty(), ..old(self)@.accounts },
                contracts: ContractCoinHolderView {
                    ledger: ContractLedgerView { delta: CHContractDeltaView::empty(), ..old(self)@.contracts.ledger },
                    backup: CHContractDeltaView::empty(),
                },
            }),
    {
        self.accounts.clear_changes();
        self.contracts.delta.flush();
        self.backup_of_delta_contracts.flush();
    }

    /// Applies all ephemeral changes to the permanent accounts and contracts and appends the writes
    /// to `ops`, in order: new accounts, new contracts, account balances, contract balances, account
    /// shadow allocs sums, shadow spaces, deallocations (an account already gone from the stored space
    /// is passed over). The changes stay. A missing body stops it, with the writes produced so far a
    /// prefix of all of them and the state the one reached at the failing key.
    #[verifier::rlimit(60)]
    #[verifier::spinoff_prover]
    pub fn apply_changes(&mut self, ops: &mut Vec<CHDiskOp>) -> (r: Result<(), CHApplyChangesError>)
        ensures
            final(self)@.accounts.delta == old(self)@.accounts.delta,
            final(self)@.accounts.backup == old(self)@.accounts.backup,
            final(self)@.contracts.ledger.delta == old(self)@.contracts.ledger.delta,
            final(self)@.contracts.backup == old(self)@.contracts.backup,
            final(ops)@.len() >= old(ops)@.len(),
            final(ops)@.subrange(0, old(ops)@.len() as int) == old(ops)@,
            match holder_apply_outcome(old(self)@.accounts.accounts, old(self)@.contracts.ledger.contracts, old(self).account_delta_exec(), old(self).contract_delta_exec()) {
                Ok((a, c)) => r is Ok && final(self)@.accounts.accounts == a && final(self)@.contracts.ledger.contracts == c
                    && final(ops)@ == old(ops)@ + holder_apply_ops(old(self).account_delta_exec(), old(self).contract_delta_exec()),
                Err(e) => r == Err::<(), CHApplyChangesError>(e)
                    && final(ops)@.skip(old(ops)@.len() as int).is_prefix_of(holder_apply_ops(old(self).account_delta_exec(), old(self).contract_delta_exec()))
                    && holder_apply_failed(old(self)@.accounts.accounts, old(self)@.contracts.ledger.contracts,
                        old(self).account_delta_exec(), old(self).contract_delta_exec(),
                        final(self)@.accounts.accounts, final(self)@.contracts.ledger.contracts, final(ops)@.skip(old(ops)@.len() as int)),
            },
    {
        let ghost da = self.accounts.delta_exec();
        let ghost dc = self.contracts.delta;
        let ghost ops0 = ops@;
        let ghost o1 = ops_fold(da.new_accounts_to_register@, register_account_op());
        let ghost o2 = ops_fold(dc.new_contracts_to_register@, register_contract_op());
        let ghost o3 = ops_fold(da.updated_account_balances.raw_keys(), account_balance_op(da.updated_account_balances@));
        let ghost o4 = ops_fold(dc.updated_contract_balances.raw_keys(), contract_balance_op(dc.updated_contract_balances@));
        let ghost o5 = ops_fold(da.updated_shadow_allocs_sums.raw_keys(), account_sum_op(da.updated_shadow_allocs_sums@));
        let ghost o6 = ops_fold(dc.updated_shadow_spaces.raw_keys(), space_op(dc.updated_shadow_spaces@));
        let ghost o7 = ops_fold(dc.deallocs_list.raw_keys(), dealloc_op(dc.deallocs_list@));
        let ghost full = holder_apply_ops(da, dc);
        proof {
            self.accounts.lemma_delta_exec();
            assert(full == o1 + o2 + o3 + o4 + o5 + o6 + o7);
        }
        self.accounts.register_new(ops);
        register_contracts(&mut self.contracts.in_memory, &self.contracts.delta.new_contracts_to_register, ops);
        proof {
            assert(ops@ =~= ops0 + (o1 + o2));
        }
        let ghost a1 = self@.accounts.accounts;
        let ghost c1 = self@.contracts.ledger.contracts;
        let ghost ops2 = ops@;
        match self.accounts.store_balances(ops) {
            Err(k) => {
                proof {
                    assert(full =~= (o1 + o2) + o3 + (o4 + o5 + o6 + o7));
                    lemma_produced_prefix(ops0, o1 + o2, ops@, o3, o4 + o5 + o6 + o7, full);
                    assert(ops@.subrange(0, ops0.len() as int) =~= ops0);
                    let kb = da.updated_account_balances.raw_keys();
                    let mb = da.updated_account_balances@;
                    let i = choose|i: int| fold_stops_at(a1, kb, super::apply::account_balance_step(mb), i, self@.accounts.accounts)
                        && ops@ == ops2 + ops_fold(kb.subrange(0, i), account_balance_op(mb));
                    assert(ops@.skip(ops0.len() as int) =~= o1 + o2 + ops_fold(kb.subrange(0, i), account_balance_op(mb)));
                }
                return Err(CHApplyChangesError::AccountApplyChangesError(CHAccountApplyChangesError::UnableToGetPermanentAccountBody(k)));
            },
            Ok(()) => {},
        }
        proof {
            assert(ops@ =~= ops0 + (o1 + o2 + o3));
        }
        let ghost ops3 = ops@;
        match store_contract_balances(&mut self.contracts.in_memory, &self.contracts.delta.updated_contract_balances, ops) {
            Err(c) => {
                proof {
                    assert(full =~= (o1 + o2 + o3) + o4 + (o5 + o6 + o7));
                    lemma_produced_prefix(ops0, o1 + o2 + o3, ops@, o4, o5 + o6 + o7, full);
                    assert(ops@.subrange(0, ops0.len() as int) =~= ops0);
                    let kc = dc.updated_contract_balances.raw_keys();
                    let mc = dc.updated_contract_balances@;
                    let i = choose|i: int| fold_stops_at(c1, kc, super::apply::contract_balance_step(mc), i, self@.contracts.ledger.contracts)
                        && ops@ == ops3 + ops_fold(kc.subrange(0, i), contract_balance_op(mc));
                    assert(ops@.skip(ops0.len() as int) =~= o1 + o2 + o3 + ops_fold(kc.subrange(0, i), contract_balance_op(mc)));
                }
                return Err(CHApplyChangesError::ContractApplyChangesError(CHContractApplyChangesError::UnableToGetPermanentContractBody(c)));
            },
            Ok(()) => {},
        }
        proof {
            assert(ops@ =~= ops0 + (o1 + o2 + o3 + o4));
        }
        let ghost a2 = self@.accounts.accounts;
        let ghost c2 = self@.contracts.ledger.contracts;
        let ghost ops4 = ops@;
        match self.accounts.store_sums(ops) {
            Err(k) => {
                proof {
                    assert(full =~= (o1 + o2 + o3 + o4) + o5 + (o6 + o7));
                    lemma_produced_prefix(ops0, o1 + o2 + o3 + o4, ops@, o5, o6 + o7, full);
                    assert(ops@.subrange(0, ops0.len() as int) =~= ops0);
                    let ks = da.updated_shadow_allocs_sums.raw_keys();
                    let ms = da.updated_shadow_allocs_sums@;
                    let i = choose|i: int| fold_stops_at(a2, ks, super::apply::account_sum_step(ms), i, self@.accounts.accounts)
                        && ops@ == ops4 + ops_fold(ks.subrange(0, i), account_sum_op(ms));
                    assert(ops@.skip(ops0.len() as int) =~= o1 + o2 + o3 + o4 + ops_fold(ks.subrange(0, i), account_sum_op(ms)));
                }
                return Err(CHApplyChangesError::AccountApplyChangesError(CHAccountApplyChangesError::UnableToGetPermanentAccountBody(k)));
            },
            Ok(()) => {},
        }
        proof {
            assert(ops@ =~= ops0 + (o1 + o2 + o3 + o4 + o5));
        }
        let ghost ops5 = ops@;
        match store_spaces(&mut self.contracts.in_memory, &self.contracts.delta.updated_shadow_spaces, ops) {
            Err(c) => {
                proof {
                    assert(full =~= (o1 + o2 + o3 + o4 + o5) + o6 + o7);
                    lemma_produced_prefix(ops0, o1 + o2 + o3 + o4 + o5, ops@, o6, o7, full);
                    assert(ops@.subrange(0, ops0.len() as int) =~= ops0);
                    let ks = dc.updated_shadow_spaces.raw_keys();
                    let ms = dc.updated_shadow_spaces@;
                    let i = choose|i: int| fold_stops_at(c2, ks, super::apply::space_step(super::deltas::spaces_view(ms)), i, self@.contracts.ledger.contracts)
                        && ops@ == ops5 + ops_fold(ks.subrange(0, i), space_op(ms));
                    assert(ops@.skip(ops0.len() as int) =~= o1 + o2 + o3 + o4 + o5 + ops_fold(ks.subrange(0, i), space_op(ms)));
                }
                return Err(CHApplyChangesError::ContractApplyChangesError(CHContractApplyChangesError::UnableToGetPermanentContractBody(c)));
            },
            Ok(()) => {},
        }
        proof {
            assert(ops@ =~= ops0 + (o1 + o2 + o3 + o4 + o5 + o6));
        }
        let ghost ops6 = ops@;
        let ghost c3 = self@.contracts.ledger.contracts;
        match store_deallocs(&mut self.contracts.in_memory, &self.contracts.delta.deallocs_list, ops) {
            Err(c) => {
                proof {
                    lemma_produced_prefix(ops0, o1 + o2 + o3 + o4 + o5 + o6, ops@, o7, Seq::empty(), full);
                    assert(ops@.subrange(0, ops0.len() as int) =~= ops0);
                    let kd = dc.deallocs_list.raw_keys();
                    let md = dc.deallocs_list@;
                    let lv = super::deltas::lists_view(md);
                    let fc = self@.contracts.ledger.contracts;
                    let i = choose|i: int| fold_stops_at(c3, kd, super::apply::dealloc_step(lv), i, fc)
                        && ops@ == ops6 + ops_fold(kd.subrange(0, i), dealloc_op(md));
                    assert(ops@.skip(ops0.len() as int) =~= o1 + o2 + o3 + o4 + o5 + o6 + ops_fold(kd.subrange(0, i), dealloc_op(md)));
                }
                return Err(CHApplyChangesError::ContractApplyChangesError(CHContractApplyChangesError::UnableToGetPermanentContractBody(c)));
            },
            Ok(()) => {},
        }
        proof {
            assert(ops@ =~= ops0 + full);
            assert(ops@.subrange(0, ops0.len() as int) =~= ops0);
        }
        Ok(())
    }
}

/// Once the fold of decreases stops at a failure, later items leave it as it is.
pub proof fn lemma_fold_stops_down(acc: AccountCoinHolderView, list: Seq<(Key, u128)>, i: int)
    requires
        0 <= i <= list.len(),
        sums_down_fold(acc, list.subrange(0, i)).1 is Some,
    ensures
        sums_down_fold(acc, list) == sums_down_fold(acc, list.subrange(0, i)),
    decreases list.len() - i,
{
    if i < list.len() {
        assert(list.subrange(0, i + 1).drop_last() =~= list.subrange(0, i));
        lemma_fold_stops_down(acc, list, i + 1);
    } else {
        assert(list.subrange(0, i) =~= list);
    }
}

/// Once the fold of increases stops at a failure, later items leave it as it is.
pub proof fn lemma_fold_stops_up(acc: AccountCoinHolderView, list: Seq<(Key, u128)>, i: int)
    requires
        0 <= i <= list.len(),
        sums_up_fold(acc, list.subrange(0, i)).1 is Some,
    ensures
        sums_up_fold(acc, list) == sums_up_fold(acc, list.subrange(0, i)),
    decreases list.len() - i,
{
    if i < list.len() {
        assert(list.subrange(0, i + 1).drop_last() =~= list.subrange(0, i));
        lemma_fold_stops_up(acc, list, i + 1);
    } else {
        assert(list.subrange(0, i) =~= list);
    }
}

} // verus!
