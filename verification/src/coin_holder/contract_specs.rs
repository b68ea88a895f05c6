use super::apply::{
    contract_balance_op, contract_balance_step, dealloc_op, dealloc_step, register_contract_op, register_contract_step,
    space_op, space_step, CHDiskOp,
};
use super::bodies::{CHContractBodyView, ShadowSpaceView};
use super::contract_ledger::ContractLedgerView;
use super::deltas::{lists_view, spaces_view, CHContractDelta, CHContractDeltaView};
use super::errors::{
    ContractCoinHolderRegisterContractError, ShadowAllocAccountError, ShadowAllocDownAllError, ShadowAllocDownError,
    ShadowAllocUpAllError, ShadowAllocUpError, ShadowDeallocAccountError,
};
use super::shares::{moved, shares_computable, spread};
use crate::fold::{fold_stops_at, ops_fold, step_fold};
use crate::keymap::Key;
use vstd::prelude::*;

verus! {

impl ContractLedgerView {
    /// Outcome of registering a contract.
    pub open spec fn register_contract(self, c: Key) -> Result<Self, ContractCoinHolderRegisterContractError> {
        if self.delta.is_new(c@) {
            Err(ContractCoinHolderRegisterContractError::ContractHasJustBeenEphemerallyRegistered(c))
        } else if self.contracts.dom().contains(c@) {
            Err(ContractCoinHolderRegisterContractError::ContractIsAlreadyPermanentlyRegistered(c))
        } else {
            Ok(self.with_new_contract(c))
        }
    }

    /// Outcome of allocating an account, with a zero value, in a contract's shadow space. The account
    /// is added to the contract's list of new allocations when `append`, else the list becomes that
    /// account alone.
    pub open spec fn shadow_alloc_account(self, c: Key, a: Key, append: bool) -> Result<Self, ShadowAllocAccountError> {
        if CHContractDeltaView::listed(self.delta.allocs_list, c@, a@) {
            Err(ShadowAllocAccountError::AccountHasJustBeenEphemerallyAllocated(c, a))
        } else if CHContractDeltaView::listed(self.delta.deallocs_list, c@, a@) {
            Err(ShadowAllocAccountError::AccountHasJustBeenEphemerallyDeallocated(c, a))
        } else if self.alloc_value(c@, a@) is Some {
            Err(ShadowAllocAccountError::UnableToGetAccountAllocValue(c, a))
        } else {
            match self.space(c@) {
                None => Err(ShadowAllocAccountError::UnableToGetContractBody(c)),
                Some(sp) => {
                    let s1 = self.with_space(c@, ShadowSpaceView { allocs: sp.allocs.insert(a@, 0), ..sp });
                    Ok(ContractLedgerView {
                        delta: CHContractDeltaView {
                            allocs_list: if append {
                                CHContractDeltaView::appended(s1.delta.allocs_list, c@, a)
                            } else {
                                s1.delta.allocs_list.insert(c@, seq![a])
                            },
                            ..s1.delta
                        },
                        ..s1
                    })
                },
            }
        }
    }

    /// Outcome of deallocating an account, whose allocation must be zero, from a contract's shadow
    /// space. The contract's list of deallocations is created when missing if `create`; else a
    /// missing list fails.
    pub open spec fn shadow_dealloc_account(self, c: Key, a: Key, create: bool) -> Result<Self, ShadowDeallocAccountError> {
        if CHContractDeltaView::listed(self.delta.allocs_list, c@, a@) {
            Err(ShadowDeallocAccountError::AccountHasJustBeenEphemerallyAllocated(c, a))
        } else {
            match self.alloc_value(c@, a@) {
                None => Err(ShadowDeallocAccountError::UnableToGetAccountAllocValue(c, a)),
                Some(v) => if v != 0 {
                    Err(ShadowDeallocAccountError::AllocValueIsNonZero(c, a))
                } else if !create && !self.delta.deallocs_list.dom().contains(c@) {
                    Err(ShadowDeallocAccountError::UnableToGetEpheremalDeallocList(c))
                } else {
                    match self.space(c@) {
                        None => Err(ShadowDeallocAccountError::UnableToGetContractBody(c)),
                        Some(sp) => {
                            let s1 = self.with_space(c@, ShadowSpaceView { allocs: sp.allocs.remove(a@), ..sp });
                            Ok(ContractLedgerView {
                                delta: CHContractDeltaView {
                                    deallocs_list: CHContractDeltaView::appended(s1.delta.deallocs_list, c@, a),
                                    ..s1.delta
                                },
                                ..s1
                            })
                        },
                    }
                },
            }
        }
    }

    /// Outcome of increasing an account's allocation in a contract's shadow space: the state after the
    /// call and its result. The allocs sum may not exceed the contract balance; that failure leaves
    /// the contract's shadow space held ephemerally.
    pub open spec fn shadow_up(self, c: Key, a: Key, up: u64) -> (Self, Result<(), ShadowAllocUpError>) {
        let up_sati = (up * 100_000_000) as u128;
        match self.alloc_value(c@, a@) {
            None => (self, Err(ShadowAllocUpError::UnableToGetAccountShadowAllocValue(c, a))),
            Some(v) => match self.balance(c@) {
                None => (self, Err(ShadowAllocUpError::UnableToGetContractBalance(c))),
                Some(bal) => match self.space(c@) {
                    None => (self, Err(ShadowAllocUpError::UnableToGetContractBody(c))),
                    Some(sp) => {
                        let new_sum = (sp.allocs_sum + up) as u64;
                        if new_sum > bal {
                            (self.ensure_space(c@), Err(ShadowAllocUpError::AllocsSumExceedsTheContractBalance(c, new_sum, bal)))
                        } else {
                            (
                                self.with_space(c@, ShadowSpaceView { allocs_sum: new_sum, allocs: sp.allocs.insert(a@, (v + up_sati) as u128) }),
                                Ok(()),
                            )
                        }
                    },
                },
            },
        }
    }

    /// The arithmetic of `shadow_up` stays in range.
    pub open spec fn shadow_up_safe(self, c: Key, a: Key, up: u64) -> bool {
        &&& self.alloc_value(c@, a@) matches Some(v) ==> v + up * 100_000_000 <= u128::MAX
        &&& self.space(c@) matches Some(sp) ==> sp.allocs_sum + up <= u64::MAX
    }

    /// Outcome of decreasing an account's allocation in a contract's shadow space: the state after the
    /// call and its result. The allocs sum may not exceed the contract balance; that failure leaves
    /// the contract's shadow space held ephemerally.
    pub open spec fn shadow_down(self, c: Key, a: Key, down: u64) -> (Self, Result<(), ShadowAllocDownError>) {
        let down_sati = (down * 100_000_000) as u128;
        match self.alloc_value(c@, a@) {
            None => (self, Err(ShadowAllocDownError::UnableToGetAccountShadowAllocValue(c, a))),
            Some(v) => match self.balance(c@) {
                None => (self, Err(ShadowAllocDownError::UnableToGetContractBalance(c))),
                Some(bal) => if down_sati > v {
                    (self, Err(ShadowAllocDownError::AccountShadowAllocValueWouldGoBelowZero(c, a, v, down_sati)))
                } else {
                    match self.space(c@) {
                        None => (self, Err(ShadowAllocDownError::UnableToGetContractBody(c))),
                        Some(sp) => {
                            let new_sum = (sp.allocs_sum - down) as u64;
                            if new_sum > bal {
                                (self.ensure_space(c@), Err(ShadowAllocDownError::AllocsSumExceedsTheContractBalance(c, new_sum, bal)))
                            } else {
                                (
                                    self.with_space(c@, ShadowSpaceView { allocs_sum: new_sum, allocs: sp.allocs.insert(a@, (v - down_sati) as u128) }),
                                    Ok(()),
                                )
                            }
                        },
                    }
                },
            },
        }
    }

    /// The allocs sum of `shadow_down` does not go below zero where it is computed.
    pub open spec fn shadow_down_safe(self, c: Key, a: Key, down: u64) -> bool {
        self.alloc_value(c@, a@) matches Some(v) ==> self.balance(c@) is Some ==> down * 100_000_000 <= v
            ==> (self.space(c@) matches Some(sp) ==> down <= sp.allocs_sum)
    }

    /// Outcome of proportionally increasing every allocation of a contract's shadow space, and its
    /// allocs sum, by `up` satoshis; the result is the number of allocations that moved.
    pub open spec fn shadow_up_all(self, c: Key, up: u64) -> (Self, Result<u64, ShadowAllocUpAllError>) {
        match self.balance(c@) {
            None => (self, Err(ShadowAllocUpAllError::UnableToGetContractBalance(c))),
            Some(bal) => match self.space(c@) {
                None => (self, Err(ShadowAllocUpAllError::UnableToGetContractAllocsSum(c))),
                Some(sp) => if sp.allocs_sum == 0 {
                    (self, Err(ShadowAllocUpAllError::OperationNotPossibleWithZeroAllocsSum(c)))
                } else if sp.allocs_sum + up > bal {
                    (self, Err(ShadowAllocUpAllError::AllocsSumExceedsTheContractBalance(c, (sp.allocs_sum + up) as u64, bal)))
                } else {
                    (
                        self.with_space(c@, ShadowSpaceView {
                            allocs_sum: (sp.allocs_sum + up) as u64,
                            allocs: spread(sp.allocs, up, sp.allocs_sum, true),
                        }),
                        Ok(moved(sp.allocs, up, sp.allocs_sum).len() as u64),
                    )
                },
            },
        }
    }

    /// The arithmetic of `shadow_up_all` stays in range.
    pub open spec fn shadow_up_all_safe(self, c: Key, up: u64) -> bool {
        self.space(c@) matches Some(sp) ==> {
            &&& sp.allocs_sum + up <= u64::MAX
            &&& shares_computable(sp.allocs, up, sp.allocs_sum, true)
        }
    }

    /// Outcome of proportionally decreasing every allocation of a contract's shadow space, and its
    /// allocs sum, by `down` satoshis; the result is the number of allocations that moved.
    pub open spec fn shadow_down_all(self, c: Key, down: u64) -> (Self, Result<u64, ShadowAllocDownAllError>) {
        match self.balance(c@) {
            None => (self, Err(ShadowAllocDownAllError::UnableToGetContractBalance(c))),
            Some(bal) => match self.space(c@) {
                None => (self, Err(ShadowAllocDownAllError::UnableToGetContractAllocsSum(c))),
                Some(sp) => if sp.allocs_sum == 0 {
                    (self, Err(ShadowAllocDownAllError::OperationNotPossibleWithZeroAllocsSum(c)))
                } else if down > sp.allocs_sum {
                    (self, Err(ShadowAllocDownAllError::AllocsSumWouldGoBelowZero(c, sp.allocs_sum, down)))
                } else if sp.allocs_sum - down > bal {
                    (self, Err(ShadowAllocDownAllError::AllocsSumExceedsTheContractBalance(c, (sp.allocs_sum - down) as u64, bal)))
                } else {
                    (
                        self.with_space(c@, ShadowSpaceView {
                            allocs_sum: (sp.allocs_sum - down) as u64,
                            allocs: spread(sp.allocs, down, sp.allocs_sum, false),
                        }),
                        Ok(moved(sp.allocs, down, sp.allocs_sum).len() as u64),
                    )
                },
            },
        }
    }

    /// The arithmetic of `shadow_down_all` stays in range.
    pub open spec fn shadow_down_all_safe(self, c: Key, down: u64) -> bool {
        self.space(c@) matches Some(sp) ==> shares_computable(sp.allocs, down, sp.allocs_sum, false)
    }
}

/// Every write of applying contract changes, in order, as if no step failed: new contracts,
/// balances, shadow spaces, deallocations.
pub open spec fn contract_apply_ops(d: CHContractDelta) -> Seq<CHDiskOp> {
    ops_fold(d.new_contracts_to_register@, register_contract_op())
        + ops_fold(d.updated_contract_balances.raw_keys(), contract_balance_op(d.updated_contract_balances@))
        + ops_fold(d.updated_shadow_spaces.raw_keys(), space_op(d.updated_shadow_spaces@))
        + ops_fold(d.deallocs_list.raw_keys(), dealloc_op(d.deallocs_list@))
}

/// The permanent contracts once the new ones are registered.
pub open spec fn contracts_registered(contracts: Map<Seq<u8>, CHContractBodyView>, d: CHContractDelta) -> Map<Seq<u8>, CHContractBodyView> {
    step_fold(contracts, d.new_contracts_to_register@, register_contract_step())->Ok_0
}

/// What applying contract changes does to the permanent contracts: register the new contracts, store
/// balances, then shadow spaces, then remove the deallocated accounts (an account already gone from
/// the stored space is passed over, its deletion still written). The first contract with no
/// permanent body fails with it.
pub open spec fn contract_apply_outcome(
    contracts: Map<Seq<u8>, CHContractBodyView>,
    d: CHContractDelta,
) -> Result<Map<Seq<u8>, CHContractBodyView>, Key> {
    match step_fold(
        contracts_registered(contracts, d),
        d.updated_contract_balances.raw_keys(),
        contract_balance_step(d.updated_contract_balances@),
    ) {
        Err(c) => Err(c),
        Ok(c2) => match step_fold(c2, d.updated_shadow_spaces.raw_keys(), space_step(spaces_view(d.updated_shadow_spaces@))) {
            Err(c) => Err(c),
            Ok(c3) => step_fold(c3, d.deallocs_list.raw_keys(), dealloc_step(lists_view(d.deallocs_list@))),
        },
    }
}

/// What a failed application of contract changes leaves: the contracts of the failing step before
/// the failing contract, and the writes up to that contract's.
pub open spec fn contract_apply_failed(
    contracts: Map<Seq<u8>, CHContractBodyView>,
    d: CHContractDelta,
    new_contracts: Map<Seq<u8>, CHContractBodyView>,
    produced: Seq<CHDiskOp>,
) -> bool {
    let c1 = contracts_registered(contracts, d);
    let reg = ops_fold(d.new_contracts_to_register@, register_contract_op());
    let kb = d.updated_contract_balances.raw_keys();
    let mb = d.updated_contract_balances@;
    let ks = d.updated_shadow_spaces.raw_keys();
    let ms = d.updated_shadow_spaces@;
    let kd = d.deallocs_list.raw_keys();
    let md = d.deallocs_list@;
    let bal = ops_fold(kb, contract_balance_op(mb));
    let sps = ops_fold(ks, space_op(ms));
    match step_fold(c1, kb, contract_balance_step(mb)) {
        Err(_) => exists|i: int| fold_stops_at(c1, kb, contract_balance_step(mb), i, new_contracts)
            && produced == reg + ops_fold(kb.subrange(0, i), contract_balance_op(mb)),
        Ok(c2) => match step_fold(c2, ks, space_step(spaces_view(ms))) {
            Err(_) => exists|i: int| fold_stops_at(c2, ks, space_step(spaces_view(ms)), i, new_contracts)
                && produced == reg + bal + ops_fold(ks.subrange(0, i), space_op(ms)),
            Ok(c3) => match step_fold(c3, kd, dealloc_step(lists_view(md))) {
                Err(_) => exists|i: int| fold_stops_at(c3, kd, dealloc_step(lists_view(md)), i, new_contracts)
                    && produced == reg + bal + sps + ops_fold(kd.subrange(0, i), dealloc_op(md)),
                Ok(_) => true,
            },
        },
    }
}

} // verus!
