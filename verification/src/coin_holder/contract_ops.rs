use super::bodies::{ShadowSpace, ShadowSpaceView, SATI_SATOSHIS_PER_SATOSHI};
use super::contract_ledger::{ContractLedger, ContractLedgerView};
use super::errors::{
    ContractCoinHolderRegisterContractError, ShadowAllocAccountError, ShadowAllocDownAllError, ShadowAllocDownError,
    ShadowAllocUpAllError, ShadowAllocUpError, ShadowDeallocAccountError,
};
use super::shares::{positive_shares, shares_listed, spread_shares};
use crate::keymap::Key;
use vstd::prelude::*;

verus! {

impl ContractLedger {
    /// Registers a contract ephemerally.
    pub fn register_contract(&mut self, contract_id: Key) -> (r: Result<(), ContractCoinHolderRegisterContractError>)
        ensures
            match old(self)@.register_contract(contract_id) {
                Ok(s) => r is Ok && final(self)@ == s,
                Err(e) => r == Err::<(), ContractCoinHolderRegisterContractError>(e) && final(self)@ == old(self)@,
            },
    {
        if self.delta.is_new(&contract_id) {
            return Err(ContractCoinHolderRegisterContractError::ContractHasJustBeenEphemerallyRegistered(contract_id));
        }
        if self.in_memory.contains_key(&contract_id) {
            return Err(ContractCoinHolderRegisterContractError::ContractIsAlreadyPermanentlyRegistered(contract_id));
        }
        self.push_new_contract(contract_id);
        Ok(())
    }

    /// Allocates an account, with a zero value, in a contract's shadow space ephemerally.
    pub fn shadow_alloc_account(&mut self, contract_id: Key, account_key: Key, append: bool) -> (r: Result<(), ShadowAllocAccountError>)
        ensures
            match old(self)@.shadow_alloc_account(contract_id, account_key, append) {
                Ok(s) => r is Ok && final(self)@ == s,
                Err(e) => r == Err::<(), ShadowAllocAccountError>(e) && final(self)@ == old(self)@,
            },
    {
        if self.delta.is_just_allocated(&contract_id, &account_key) {
            return Err(ShadowAllocAccountError::AccountHasJustBeenEphemerallyAllocated(contract_id, account_key));
        }
        if self.delta.is_just_deallocated(&contract_id, &account_key) {
            return Err(ShadowAllocAccountError::AccountHasJustBeenEphemerallyDeallocated(contract_id, account_key));
        }
        if self.alloc_value(contract_id, account_key).is_some() {
            return Err(ShadowAllocAccountError::UnableToGetAccountAllocValue(contract_id, account_key));
        }
        let ghost s0 = self@;
        if !self.ensure_space(contract_id) {
            return Err(ShadowAllocAccountError::UnableToGetContractBody(contract_id));
        }
        let mut sp = self.take_space(contract_id);
        sp.insert_alloc(account_key, 0);
        self.set_space(contract_id, sp);
        let ghost s1 = self@;
        proof {
            let spv = s0.space(contract_id@)->Some_0;
            assert(s1 =~= s0.with_space(contract_id@, ShadowSpaceView { allocs: spv.allocs.insert(account_key@, 0), ..spv }));
        }
        if append {
            self.append_alloc(contract_id, account_key);
        } else {
            let mut list: Vec<Key> = Vec::new();
            list.push(account_key);
            self.set_allocs_list(contract_id, list);
        }
        Ok(())
    }

    /// Deallocates an account, whose allocation must be zero, from a contract's shadow space
    /// ephemerally; a missing list of deallocations is created if `create`.
    pub fn shadow_dealloc_account(&mut self, contract_id: Key, account_key: Key, create: bool) -> (r: Result<(), ShadowDeallocAccountError>)
        ensures
            match old(self)@.shadow_dealloc_account(contract_id, account_key, create) {
                Ok(s) => r is Ok && final(self)@ == s,
                Err(e) => r == Err::<(), ShadowDeallocAccountError>(e) && final(self)@ == old(self)@,
            },
    {
        if self.delta.is_just_allocated(&contract_id, &account_key) {
            return Err(ShadowDeallocAccountError::AccountHasJustBeenEphemerallyAllocated(contract_id, account_key));
        }
        let v = match self.alloc_value(contract_id, account_key) {
            Some(v) => v,
            None => {
                return Err(ShadowDeallocAccountError::UnableToGetAccountAllocValue(contract_id, account_key));
            },
        };
        if v != 0 {
            return Err(ShadowDeallocAccountError::AllocValueIsNonZero(contract_id, account_key));
        }
        if !create && !self.delta.deallocs_list.contains_key(&contract_id) {
            return Err(ShadowDeallocAccountError::UnableToGetEpheremalDeallocList(contract_id));
        }
        let ghost s0 = self@;
        self.append_dealloc_or_create(contract_id, account_key);
        let ghost s1 = self@;
        assert(s1.space(contract_id@) == s0.space(contract_id@));
        if !self.ensure_space(contract_id) {
            return Err(ShadowDeallocAccountError::UnableToGetContractBody(contract_id));
        }
        let mut sp = self.take_space(contract_id);
        sp.remove_alloc(account_key);
        self.set_space(contract_id, sp);
        proof {
            let spv = s0.space(contract_id@)->Some_0;
            assert(self@ =~= old(self)@.shadow_dealloc_account(contract_id, account_key, create)->Ok_0);
        }
        Ok(())
    }

    /// Increases an account's allocation in a contract's shadow space ephemerally.
    pub fn shadow_up(&mut self, contract_id: Key, account_key: Key, up_value_in_satoshis: u64) -> (r: Result<(), ShadowAllocUpError>)
        requires
            old(self)@.shadow_up_safe(contract_id, account_key, up_value_in_satoshis),
        ensures
            final(self)@ == old(self)@.shadow_up(contract_id, account_key, up_value_in_satoshis).0,
            r == old(self)@.shadow_up(contract_id, account_key, up_value_in_satoshis).1,
    {
        let up_sati: u128 = (up_value_in_satoshis as u128) * SATI_SATOSHIS_PER_SATOSHI;
        let v = match self.alloc_value(contract_id, account_key) {
            Some(v) => v,
            None => {
                return Err(ShadowAllocUpError::UnableToGetAccountShadowAllocValue(contract_id, account_key));
            },
        };
        let bal = match self.balance(contract_id) {
            Some(b) => b,
            None => {
                return Err(ShadowAllocUpError::UnableToGetContractBalance(contract_id));
            },
        };
        if !self.ensure_space(contract_id) {
            return Err(ShadowAllocUpError::UnableToGetContractBody(contract_id));
        }
        let ghost s1 = self@;
        let mut sp = self.take_space(contract_id);
        let new_value: u128 = v + up_sati;
        let new_sum: u64 = sp.allocs_sum() + up_value_in_satoshis;
        if new_sum > bal {
            self.set_space(contract_id, sp);
            assert(self@ =~= s1);
            return Err(ShadowAllocUpError::AllocsSumExceedsTheContractBalance(contract_id, new_sum, bal));
        }
        sp.insert_alloc(account_key, new_value);
        sp.update_allocs_sum(new_sum);
        self.set_space(contract_id, sp);
        assert(self@ =~= old(self)@.shadow_up(contract_id, account_key, up_value_in_satoshis).0);
        Ok(())
    }

    /// Decreases an account's allocation in a contract's shadow space ephemerally.
    pub fn shadow_down(&mut self, contract_id: Key, account_key: Key, down_value_in_satoshis: u64) -> (r: Result<(), ShadowAllocDownError>)
        requires
            old(self)@.shadow_down_safe(contract_id, account_key, down_value_in_satoshis),
        ensures
            final(self)@ == old(self)@.shadow_down(contract_id, account_key, down_value_in_satoshis).0,
            r == old(self)@.shadow_down(contract_id, account_key, down_value_in_satoshis).1,
    {
        let down_sati: u128 = (down_value_in_satoshis as u128) * SATI_SATOSHIS_PER_SATOSHI;
        let v = match self.alloc_value(contract_id, account_key) {
            Some(v) => v,
            None => {
                return Err(ShadowAllocDownError::UnableToGetAccountShadowAllocValue(contract_id, account_key));
            },
        };
        let bal = match self.balance(contract_id) {
            Some(b) => b,
            None => {
                return Err(ShadowAllocDownError::UnableToGetContractBalance(contract_id));
            },
        };
        if down_sati > v {
            return Err(ShadowAllocDownError::AccountShadowAllocValueWouldGoBelowZero(contract_id, account_key, v, down_sati));
        }
        if !self.ensure_space(contract_id) {
            return Err(ShadowAllocDownError::UnableToGetContractBody(contract_id));
        }
        let ghost s1 = self@;
        let mut sp = self.take_space(contract_id);
        let new_value: u128 = v - down_sati;
        let new_sum: u64 = sp.allocs_sum() - down_value_in_satoshis;
        if new_sum > bal {
            self.set_space(contract_id, sp);
            assert(self@ =~= s1);
            return Err(ShadowAllocDownError::AllocsSumExceedsTheContractBalance(contract_id, new_sum, bal));
        }
        sp.insert_alloc(account_key, new_value);
        sp.update_allocs_sum(new_sum);
        self.set_space(contract_id, sp);
        assert(self@ =~= old(self)@.shadow_down(contract_id, account_key, down_value_in_satoshis).0);
        Ok(())
    }

    /// Proportionally increases every allocation of a contract's shadow space ephemerally; returns
    /// the moved accounts with their shares, in allocation order.
    pub fn shadow_up_all(&mut self, contract_id: Key, up_value_in_satoshis: u64) -> (r: Result<Vec<(Key, u128)>, ShadowAllocUpAllError>)
        requires
            old(self)@.shadow_up_all_safe(contract_id, up_value_in_satoshis),
        ensures
            final(self)@ == old(self)@.shadow_up_all(contract_id, up_value_in_satoshis).0,
            match old(self)@.shadow_up_all(contract_id, up_value_in_satoshis).1 {
                Ok(n) => r matches Ok(list) && list@.len() == n && list@ == positive_shares(
                    old(self).space_order(contract_id@),
                    old(self)@.space(contract_id@)->Some_0.allocs,
                    up_value_in_satoshis,
                    old(self)@.space(contract_id@)->Some_0.allocs_sum,
                ) && shares_listed(list@, old(self)@.space(contract_id@)->Some_0.allocs, up_value_in_satoshis, old(self)@.space(contract_id@)->Some_0.allocs_sum),
                Err(e) => r == Err::<Vec<(Key, u128)>, ShadowAllocUpAllError>(e),
            },
    {
        let bal = match self.balance(contract_id) {
            Some(b) => b,
            None => {
                return Err(ShadowAllocUpAllError::UnableToGetContractBalance(contract_id));
            },
        };
        let (spread_space, list) = match self.space(contract_id) {
            None => {
                return Err(ShadowAllocUpAllError::UnableToGetContractAllocsSum(contract_id));
            },
            Some(sp) => {
                let sum = sp.allocs_sum();
                if sum == 0 {
                    return Err(ShadowAllocUpAllError::OperationNotPossibleWithZeroAllocsSum(contract_id));
                }
                let new_sum: u64 = sum + up_value_in_satoshis;
                if new_sum > bal {
                    return Err(ShadowAllocUpAllError::AllocsSumExceedsTheContractBalance(contract_id, new_sum, bal));
                }
                proof {
                    assert(sp.alloc_keys() == self.space_order(contract_id@));
                }
                let (mut out, list) = spread_shares(sp, up_value_in_satoshis, true);
                out.update_allocs_sum(new_sum);
                (out, list)
            },
        };
        self.set_space(contract_id, spread_space);
        let count = list.len();
        assert(count == list@.len());
        Ok(list)
    }

    /// Proportionally decreases every allocation of a contract's shadow space ephemerally; returns
    /// the moved accounts with their shares, in allocation order.
    pub fn shadow_down_all(&mut self, contract_id: Key, down_value_in_satoshis: u64) -> (r: Result<Vec<(Key, u128)>, ShadowAllocDownAllError>)
        requires
            old(self)@.shadow_down_all_safe(contract_id, down_value_in_satoshis),
        ensures
            final(self)@ == old(self)@.shadow_down_all(contract_id, down_value_in_satoshis).0,
            match old(self)@.shadow_down_all(contract_id, down_value_in_satoshis).1 {
                Ok(n) => r matches Ok(list) && list@.len() == n && list@ == positive_shares(
                    old(self).space_order(contract_id@),
                    old(self)@.space(contract_id@)->Some_0.allocs,
                    down_value_in_satoshis,
                    old(self)@.space(contract_id@)->Some_0.allocs_sum,
                ) && shares_listed(list@, old(self)@.space(contract_id@)->Some_0.allocs, down_value_in_satoshis, old(self)@.space(contract_id@)->Some_0.allocs_sum),
                Err(e) => r == Err::<Vec<(Key, u128)>, ShadowAllocDownAllError>(e),
            },
    {
        let bal = match self.balance(contract_id) {
            Some(b) => b,
            None => {
                return Err(ShadowAllocDownAllError::UnableToGetContractBalance(contract_id));
            },
        };
        let (spread_space, list) = match self.space(contract_id) {
            None => {
                return Err(ShadowAllocDownAllError::UnableToGetContractAllocsSum(contract_id));
            },
            Some(sp) => {
                let sum = sp.allocs_sum();
                if sum == 0 {
                    return Err(ShadowAllocDownAllError::OperationNotPossibleWithZeroAllocsSum(contract_id));
                }
                if down_value_in_satoshis > sum {
                    return Err(ShadowAllocDownAllError::AllocsSumWouldGoBelowZero(contract_id, sum, down_value_in_satoshis));
                }
                let new_sum: u64 = sum - down_value_in_satoshis;
                if new_sum > bal {
                    return Err(ShadowAllocDownAllError::AllocsSumExceedsTheContractBalance(contract_id, new_sum, bal));
                }
                proof {
                    assert(sp.alloc_keys() == self.space_order(contract_id@));
                }
                let (mut out, list) = spread_shares(sp, down_value_in_satoshis, false);
                out.update_allocs_sum(new_sum);
                (out, list)
            },
        };
        self.set_space(contract_id, spread_space);
        let count = list.len();
        assert(count == list@.len());
        Ok(list)
    }
}

} // verus!
