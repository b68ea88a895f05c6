use super::account_body::CMAccountBody;
use super::contract_body::{CMContractBody, CMContractBodyView};
use super::delta::{space_map_view, CMDelta, CMDeltaView};
use super::errors::{
    CMAccountBalanceDownError, CMAccountBalanceUpError, CMAccountShadowAllocsSumDownError,
    CMAccountShadowAllocsSumUpError, CMContractBalanceDownError, CMContractBalanceUpError,
    CMContractShadowAllocAccountError, CMContractShadowDeallocAccountError, CMRegisterAccountError,
    CMRegisterContractError, CMShadowDownAllError, CMShadowDownError, CMShadowUpAllError, CMShadowUpError,
};
use super::shadow_space::{apply_deferred_change, deferred_computable, deferred_value, ShadowSpace, ShadowSpaceView, ONE_SATOSHI_IN_SATI_SATOSHIS};
use super::apply::{
    lemma_balances_keep_globals, register_new_accounts, register_new_contracts, spread_deferred_changes, store_account_balances, store_contract_balances, store_deallocs, store_global_sums, store_spaces,
};
use super::apply_spec::{
    account_balance_ops, accounts_with_new, all_apply_ops, apply_changes_outcome, apply_changes_safe, balance_step, changes_in_range, balances_stored, contract_balance_ops, contract_balance_step, dealloc_step, global_sum_step, space_step, contracts_with_new, dealloc_ops, global_sum_ops, globals_of, materialized, new_account_ops, new_contract_ops, space_ops, CMDiskOp,
};
use super::errors::{CMAccountApplyChangesError, CMApplyChangesError, CMContractApplyChangesError};
use crate::keymap::{key_views, keys_contain, Key, KeyMap};
use super::global_read::{lemma_exec_shares, lemma_total_is};
use crate::fold::{fold_stops_at, lemma_produced_prefix};
use vstd::prelude::*;

verus! {

/// Special db key of the contract balance; an account key may not take this value.
pub const CONTRACT_BALANCE_SPECIAL_DB_KEY: [u8; 32] = [0x00, 0x00, 0x00, 0x00, 0x00, 0x00, 0x00, 0x00, 0x00, 0x00, 0x00, 0x00, 0x00, 0x00, 0x00, 0x00, 0x00, 0x00, 0x00, 0x00, 0x00, 0x00, 0x00, 0x00, 0x00, 0x00, 0x00, 0x00, 0x00, 0x00, 0x00, 0x00];

/// Special db key of the contract shadow allocs sum; an account key may not take this value.
pub const CONTRACT_ALLOCS_SUM_SPECIAL_DB_KEY: [u8; 32] = [0x01, 0x01, 0x01, 0x01, 0x01, 0x01, 0x01, 0x01, 0x01, 0x01, 0x01, 0x01, 0x01, 0x01, 0x01, 0x01, 0x01, 0x01, 0x01, 0x01, 0x01, 0x01, 0x01, 0x01, 0x01, 0x01, 0x01, 0x01, 0x01, 0x01, 0x01, 0x01];

/// The view of the contract balance special key.
pub open spec fn contract_balance_db_key() -> Seq<u8> {
    Seq::new(32, |i: int| 0x00u8)
}

/// The view of the contract allocs sum special key.
pub open spec fn contract_allocs_sum_db_key() -> Seq<u8> {
    Seq::new(32, |i: int| 0x01u8)
}

/// The abstract state of a coin manager.
#[verifier::ext_equal]
pub struct CoinManagerView {
    /// Permanent account bodies.
    pub accounts: Map<Seq<u8>, CMAccountBody>,
    /// Permanent contract bodies.
    pub contracts: Map<Seq<u8>, CMContractBodyView>,
    /// Ephemeral changes.
    pub delta: CMDeltaView,
    /// Backup of the ephemeral changes, for rollback.
    pub backup: CMDeltaView,
}

/// Keeps account and contract balances and shadow space allocations, with ephemeral changes on top.
pub struct CoinManager {
    in_memory_accounts: KeyMap<CMAccountBody>,
    in_memory_contracts: KeyMap<CMContractBody>,
    delta: CMDelta,
    backup_of_delta: CMDelta,
}

/// The views of a map of contract bodies.
pub open spec fn contract_map_view(m: Map<Seq<u8>, CMContractBody>) -> Map<Seq<u8>, CMContractBodyView> {
    m.map_values(|b: CMContractBody| b@)
}

impl View for CoinManager {
    type V = CoinManagerView;

    closed spec fn view(&self) -> CoinManagerView {
        CoinManagerView {
            accounts: self.in_memory_accounts@,
            contracts: contract_map_view(self.in_memory_contracts@),
            delta: self.delta@,
            backup: self.backup_of_delta@,
        }
    }
}

/// Ephemeral changes that fit a permanent state: a new account or contract is not registered yet,
/// and every other changed account or contract is.
pub open spec fn delta_consistent(
    accounts: Map<Seq<u8>, CMAccountBody>,
    contracts: Map<Seq<u8>, CMContractBodyView>,
    d: CMDeltaView,
) -> bool {
    &&& forall|k: Seq<u8>| #[trigger] d.new_accounts_to_register.dom().contains(k) ==> !accounts.dom().contains(k)
    &&& forall|c: Seq<u8>| #[trigger] d.new_contracts_to_register.dom().contains(c) ==> !contracts.dom().contains(c)
    &&& forall|k: Seq<u8>| #[trigger] d.updated_account_balances.dom().contains(k) ==> accounts.dom().contains(k)
    &&& forall|k: Seq<u8>| #[trigger] d.updated_shadow_allocs_sums.dom().contains(k) ==> accounts.dom().contains(k)
    &&& forall|c: Seq<u8>| #[trigger] d.updated_contract_balances.dom().contains(c) ==> contracts.dom().contains(c)
    &&& forall|c: Seq<u8>| #[trigger] d.updated_shadow_spaces.dom().contains(c) ==> contracts.dom().contains(c)
    &&& forall|c: Seq<u8>| #[trigger] d.deallocs_list.dom().contains(c) ==> contracts.dom().contains(c)
}

impl CoinManagerView {
    /// A coin manager with the given permanent state and no ephemeral change.
    pub open spec fn with_permanent(
        accounts: Map<Seq<u8>, CMAccountBody>,
        contracts: Map<Seq<u8>, CMContractBodyView>,
    ) -> Self {
        CoinManagerView { accounts, contracts, delta: CMDeltaView::empty(), backup: CMDeltaView::empty() }
    }

    /// Every state that the public operations reach from a constructed coin manager, up to an applying
    /// of the changes and until the next flush, holds this of its ephemeral changes and of their backup.
    pub open spec fn consistent(self) -> bool {
        &&& delta_consistent(self.accounts, self.contracts, self.delta)
        &&& delta_consistent(self.accounts, self.contracts, self.backup)
    }

    /// An account's balance: the ephemeral one if there is one, else the permanent one.
    pub open spec fn account_balance(self, k: Seq<u8>) -> Option<u64> {
        if self.delta.updated_account_balances.dom().contains(k) {
            Some(self.delta.updated_account_balances[k])
        } else if self.accounts.dom().contains(k) {
            Some(self.accounts[k].balance)
        } else {
            None
        }
    }

    /// A contract's balance: the ephemeral one if there is one, else the permanent one.
    pub open spec fn contract_balance(self, c: Seq<u8>) -> Option<u64> {
        if self.delta.updated_contract_balances.dom().contains(c) {
            Some(self.delta.updated_contract_balances[c])
        } else if self.contracts.dom().contains(c) {
            Some(self.contracts[c].balance)
        } else {
            None
        }
    }

    /// An account's global shadow allocs sum without deferred changes, in sati-satoshis.
    pub open spec fn base_global_sum(self, k: Seq<u8>) -> Option<u128> {
        if self.delta.updated_shadow_allocs_sums.dom().contains(k) {
            Some(self.delta.updated_shadow_allocs_sums[k])
        } else if self.accounts.dom().contains(k) {
            Some(self.accounts[k].global_shadow_allocs_sum)
        } else {
            None
        }
    }

    /// A contract's current shadow space: the ephemeral one if there is one, else the permanent one.
    pub open spec fn space(self, c: Seq<u8>) -> Option<ShadowSpaceView> {
        if self.delta.updated_shadow_spaces.dom().contains(c) {
            Some(self.delta.updated_shadow_spaces[c])
        } else if self.contracts.dom().contains(c) {
            Some(self.contracts[c].shadow_space)
        } else {
            None
        }
    }

    /// Whether an account was allocated in a contract's shadow space during this execution.
    pub open spec fn is_just_allocated(self, c: Seq<u8>, a: Seq<u8>) -> bool {
        self.delta.allocs_list.dom().contains(c) && self.delta.allocs_list[c].contains(a)
    }

    /// Whether an account was deallocated from a contract's shadow space during this execution.
    pub open spec fn is_just_deallocated(self, c: Seq<u8>, a: Seq<u8>) -> bool {
        self.delta.deallocs_list.dom().contains(c) && self.delta.deallocs_list[c].contains(a)
    }

    /// An account's allocation in a contract's shadow space without deferred changes, in sati-satoshis.
    pub open spec fn base_alloc(self, c: Seq<u8>, a: Seq<u8>) -> Option<u128> {
        if self.is_just_deallocated(c, a) {
            None
        } else {
            match self.space(c) {
                Some(s) => if s.allocs.dom().contains(a) {
                    Some(s.allocs[a])
                } else {
                    None
                },
                None => None,
            }
        }
    }

    /// An account's allocation in a contract's shadow space, deferred changes included, in sati-satoshis.
    pub open spec fn alloc_value(self, c: Seq<u8>, a: Seq<u8>) -> Option<u128> {
        if self.is_just_deallocated(c, a) {
            None
        } else if self.delta.updated_shadow_spaces.dom().contains(c) {
            let s = self.delta.updated_shadow_spaces[c];
            if s.allocs.dom().contains(a) {
                Some(deferred_value(s.allocs[a], s.deferred, s.allocs_sum) as u128)
            } else {
                None
            }
        } else {
            self.base_alloc(c, a)
        }
    }

    /// The arithmetic of reading an allocation with its deferred change stays in range.
    pub open spec fn alloc_value_computable(self, c: Seq<u8>, a: Seq<u8>) -> bool {
        !self.is_just_deallocated(c, a) && self.delta.updated_shadow_spaces.dom().contains(c)
            && self.delta.updated_shadow_spaces[c].allocs.dom().contains(a) ==> {
            let s = self.delta.updated_shadow_spaces[c];
            deferred_computable(s.allocs[a], s.deferred, s.allocs_sum)
        }
    }

    /// The state with a contract's shadow space copied into the ephemeral changes, if it is not there yet.
    pub open spec fn ensure_space(self, c: Seq<u8>) -> Self {
        if !self.delta.updated_shadow_spaces.dom().contains(c) && self.contracts.dom().contains(c) {
            CoinManagerView {
                delta: CMDeltaView {
                    updated_shadow_spaces: self.delta.updated_shadow_spaces.insert(c, self.contracts[c].shadow_space),
                    ..self.delta
                },
                ..self
            }
        } else {
            self
        }
    }

    /// The state with a contract's ephemeral shadow space replaced.
    pub open spec fn with_space(self, c: Seq<u8>, s: ShadowSpaceView) -> Self {
        CoinManagerView {
            delta: CMDeltaView { updated_shadow_spaces: self.delta.updated_shadow_spaces.insert(c, s), ..self.delta },
            ..self
        }
    }

    /// The state with an account's ephemeral balance replaced.
    pub open spec fn with_account_balance(self, k: Seq<u8>, b: u64) -> Self {
        CoinManagerView {
            delta: CMDeltaView { updated_account_balances: self.delta.updated_account_balances.insert(k, b), ..self.delta },
            ..self
        }
    }

    /// The state with a contract's ephemeral balance replaced.
    pub open spec fn with_contract_balance(self, c: Seq<u8>, b: u64) -> Self {
        CoinManagerView {
            delta: CMDeltaView { updated_contract_balances: self.delta.updated_contract_balances.insert(c, b), ..self.delta },
            ..self
        }
    }

    /// The state with an account's ephemeral global shadow allocs sum replaced.
    pub open spec fn with_global_sum(self, k: Seq<u8>, s: u128) -> Self {
        CoinManagerView {
            delta: CMDeltaView {
                updated_shadow_allocs_sums: self.delta.updated_shadow_allocs_sums.insert(k, s),
                ..self.delta
            },
            ..self
        }
    }

    /// Outcome of registering an account.
    pub open spec fn register_account(self, k: Key, balance: u64) -> Result<Self, CMRegisterAccountError> {
        if k@ == contract_balance_db_key() || k@ == contract_allocs_sum_db_key() {
            Err(CMRegisterAccountError::AccountKeyCannotBeTheSpecialDbKeys(k))
        } else if self.delta.new_accounts_to_register.dom().contains(k@) {
            Err(CMRegisterAccountError::AccountHasJustBeenEphemerallyRegistered(k))
        } else if self.accounts.dom().contains(k@) {
            Err(CMRegisterAccountError::AccountIsAlreadyPermanentlyRegistered(k))
        } else {
            Ok(CoinManagerView {
                delta: CMDeltaView {
                    new_accounts_to_register: self.delta.new_accounts_to_register.insert(k@, balance),
                    ..self.delta
                },
                ..self
            })
        }
    }

    /// Outcome of registering a contract.
    pub open spec fn register_contract(self, c: Key, balance: u64) -> Result<Self, CMRegisterContractError> {
        if self.delta.new_contracts_to_register.dom().contains(c@) {
            Err(CMRegisterContractError::ContractHasJustBeenEphemerallyRegistered(c))
        } else if self.contracts.dom().contains(c@) {
            Err(CMRegisterContractError::ContractIsAlreadyPermanentlyRegistered(c))
        } else {
            Ok(CoinManagerView {
                delta: CMDeltaView {
                    new_contracts_to_register: self.delta.new_contracts_to_register.insert(c@, balance),
                    ..self.delta
                },
                ..self
            })
        }
    }
    /// Outcome of increasing an account's balance.
    pub open spec fn account_balance_up(self, k: Key, up: u64) -> Result<Self, CMAccountBalanceUpError> {
        match self.account_balance(k@) {
            None => Err(CMAccountBalanceUpError::UnableToGetAccountBalance(k)),
            Some(b) => Ok(self.with_account_balance(k@, (b + up) as u64)),
        }
    }

    /// Outcome of decreasing an account's balance.
    pub open spec fn account_balance_down(self, k: Key, down: u64) -> Result<Self, CMAccountBalanceDownError> {
        match self.account_balance(k@) {
            None => Err(CMAccountBalanceDownError::UnableToGetAccountBalance(k)),
            Some(b) => if down > b {
                Err(CMAccountBalanceDownError::AccountBalanceWouldGoBelowZero(k, b, down))
            } else {
                Ok(self.with_account_balance(k@, (b - down) as u64))
            },
        }
    }

    /// Outcome of increasing a contract's balance.
    pub open spec fn contract_balance_up(self, c: Key, up: u64) -> Result<Self, CMContractBalanceUpError> {
        match self.contract_balance(c@) {
            None => Err(CMContractBalanceUpError::UnableToGetContractBalance(c)),
            Some(b) => Ok(self.with_contract_balance(c@, (b + up) as u64)),
        }
    }

    /// Outcome of decreasing a contract's balance; it may not go below the contract's allocs sum.
    pub open spec fn contract_balance_down(self, c: Key, down: u64) -> Result<Self, CMContractBalanceDownError> {
        match self.contract_balance(c@) {
            None => Err(CMContractBalanceDownError::UnableToGetContractBalance(c)),
            Some(b) => if down > b {
                Err(CMContractBalanceDownError::ContractBalanceWouldGoBelowZero(c, b, down))
            } else {
                match self.space(c@) {
                    None => Err(CMContractBalanceDownError::UnableToGetContractAllocsSum(c)),
                    Some(sp) => if ((b - down) as u64) < sp.allocs_sum {
                        Err(CMContractBalanceDownError::ContractBalanceWouldGoBelowAllocsSum(c, (b - down) as u64, sp.allocs_sum))
                    } else {
                        Ok(self.with_contract_balance(c@, (b - down) as u64))
                    },
                }
            },
        }
    }

    /// Outcome of allocating an account, with a zero value, in a contract's shadow space.
    pub open spec fn shadow_alloc_account(self, c: Key, a: Key) -> Result<Self, CMContractShadowAllocAccountError> {
        if self.is_just_allocated(c@, a@) {
            Err(CMContractShadowAllocAccountError::AccountHasJustBeenEphemerallyAllocated(c, a))
        } else if self.is_just_deallocated(c@, a@) {
            Err(CMContractShadowAllocAccountError::AccountHasJustBeenEphemerallyDeallocated(c, a))
        } else if self.base_alloc(c@, a@) is Some {
            Err(CMContractShadowAllocAccountError::AccountIsAlreadyPermanentlyAllocated(c, a))
        } else {
            match self.space(c@) {
                None => Err(CMContractShadowAllocAccountError::UnableToGetMutEphemeralShadowSpace(c)),
                Some(sp) => {
                    let s1 = self.with_space(c@, ShadowSpaceView { allocs: sp.allocs.insert(a@, 0), ..sp });
                    Ok(CoinManagerView {
                        delta: CMDeltaView {
                            allocs_list: CMDeltaView::appended(s1.delta.allocs_list, c@, a@),
                            ..s1.delta
                        },
                        ..s1
                    })
                },
            }
        }
    }

    /// Outcome of deallocating an account, whose allocation must be zero, from a contract's shadow space.
    pub open spec fn shadow_dealloc_account(self, c: Key, a: Key) -> Result<Self, CMContractShadowDeallocAccountError> {
        if self.is_just_allocated(c@, a@) {
            Err(CMContractShadowDeallocAccountError::AccountHasJustBeenEphemerallyAllocated(c, a))
        } else if self.is_just_deallocated(c@, a@) {
            Err(CMContractShadowDeallocAccountError::AccountHasJustBeenEphemerallyDeallocated(c, a))
        } else {
            match self.base_alloc(c@, a@) {
                None => Err(CMContractShadowDeallocAccountError::UnableToGetAccountAllocValue(c, a)),
                Some(v) => if v != 0 {
                    Err(CMContractShadowDeallocAccountError::AllocValueIsNonZero(c, a))
                } else {
                    match self.space(c@) {
                        None => Err(CMContractShadowDeallocAccountError::UnableToGetMutEphemeralShadowSpace(c)),
                        Some(sp) => {
                            let s1 = self.with_space(c@, ShadowSpaceView { allocs: sp.allocs.remove(a@), ..sp });
                            Ok(CoinManagerView {
                                delta: CMDeltaView {
                                    deallocs_list: CMDeltaView::appended(s1.delta.deallocs_list, c@, a@),
                                    ..s1.delta
                                },
                                ..s1
                            })
                        },
                    }
                },
            }
        }
    }

    /// Outcome of increasing an account's global shadow allocs sum.
    pub open spec fn global_sum_up(self, k: Key, up: u128) -> Result<Self, CMAccountShadowAllocsSumUpError> {
        match self.base_global_sum(k@) {
            None => Err(CMAccountShadowAllocsSumUpError::UnableToGetAccountShadowAllocsSum(k)),
            Some(g) => Ok(self.with_global_sum(k@, (g + up) as u128)),
        }
    }

    /// Outcome of decreasing an account's global shadow allocs sum.
    pub open spec fn global_sum_down(self, k: Key, down: u128) -> Result<Self, CMAccountShadowAllocsSumDownError> {
        match self.base_global_sum(k@) {
            None => Err(CMAccountShadowAllocsSumDownError::UnableToGetAccountShadowAllocsSum(k)),
            Some(g) => if down > g {
                Err(CMAccountShadowAllocsSumDownError::AccountShadowAllocsSumWouldGoBelowZero(k, g, down))
            } else {
                Ok(self.with_global_sum(k@, (g - down) as u128))
            },
        }
    }

    /// Outcome of increasing an account's allocation in a contract's shadow space: the state after the
    /// call and its result. The allocs sum may not exceed the contract balance. A failure after the
    /// shadow space was updated leaves that update in place.
    pub open spec fn shadow_up(self, c: Key, a: Key, up: u64) -> (Self, Result<(), CMShadowUpError>) {
        let up_sati = (up * 100_000_000) as u128;
        match self.base_alloc(c@, a@) {
            None => (self, Err(CMShadowUpError::UnableToGetAccountShadowAllocValue(c, a))),
            Some(v) => match self.contract_balance(c@) {
                None => (self, Err(CMShadowUpError::UnableToGetContractBalance(c))),
                Some(bal) => match self.space(c@) {
                    None => (self, Err(CMShadowUpError::UnableToGetMutEphemeralShadowSpace(c))),
                    Some(sp) => {
                        let s1 = self.ensure_space(c@);
                        let new_sum = (sp.allocs_sum + up) as u64;
                        if new_sum > bal {
                            (s1, Err(CMShadowUpError::AllocsSumExceedsTheContractBalance(c, new_sum, bal)))
                        } else {
                            let s2 = s1.with_space(
                                c@,
                                ShadowSpaceView { allocs_sum: new_sum, allocs: sp.allocs.insert(a@, (v + up_sati) as u128), ..sp },
                            );
                            match s2.global_sum_up(a, up_sati) {
                                Ok(s3) => (s3, Ok(())),
                                Err(e) => (s2, Err(CMShadowUpError::AccountShadowAllocsSumUpError(c, a, e))),
                            }
                        }
                    },
                },
            },
        }
    }

    /// The arithmetic of `shadow_up` stays in range.
    pub open spec fn shadow_up_safe(self, c: Key, a: Key, up: u64) -> bool {
        let up_sati = up * 100_000_000;
        &&& self.base_alloc(c@, a@) matches Some(v) ==> v + up_sati <= u128::MAX
        &&& self.space(c@) matches Some(sp) ==> sp.allocs_sum + up <= u64::MAX
        &&& self.base_global_sum(a@) matches Some(g) ==> g + up_sati <= u128::MAX
    }

    /// Outcome of decreasing an account's allocation in a contract's shadow space: the state after the
    /// call and its result. A failure after the shadow space was updated leaves that update in place.
    pub open spec fn shadow_down(self, c: Key, a: Key, down: u64) -> (Self, Result<(), CMShadowDownError>) {
        let down_sati = (down * 100_000_000) as u128;
        match self.base_alloc(c@, a@) {
            None => (self, Err(CMShadowDownError::UnableToGetAccountShadowAllocValue(c, a))),
            Some(v) => if down_sati > v {
                (self, Err(CMShadowDownError::AccountShadowAllocValueWouldGoBelowZero(c, a, v, down_sati)))
            } else {
                match self.space(c@) {
                    None => (self, Err(CMShadowDownError::UnableToGetMutEphemeralShadowSpace(c))),
                    Some(sp) => {
                        let s1 = self.ensure_space(c@);
                        if down > sp.allocs_sum {
                            (s1, Err(CMShadowDownError::ContractShadowAllocsSumWouldGoBelowZero(c, sp.allocs_sum, down)))
                        } else {
                            let s2 = s1.with_space(
                                c@,
                                ShadowSpaceView {
                                    allocs_sum: (sp.allocs_sum - down) as u64,
                                    allocs: sp.allocs.insert(a@, (v - down_sati) as u128),
                                    ..sp
                                },
                            );
                            match s2.global_sum_down(a, down_sati) {
                                Ok(s3) => (s3, Ok(())),
                                Err(e) => (s2, Err(CMShadowDownError::AccountShadowAllocsSumDownError(c, a, e))),
                            }
                        }
                    },
                }
            },
        }
    }

    /// Outcome of proportionally increasing every allocation of a contract's shadow space: the allocs sum
    /// grows at once and the change is recorded as deferred; the result is the number of allocations.
    pub open spec fn shadow_up_all(self, c: Key, up: u64) -> (Self, Result<u64, CMShadowUpAllError>) {
        match self.contract_balance(c@) {
            None => (self, Err(CMShadowUpAllError::UnableToGetContractBalance(c))),
            Some(bal) => match self.space(c@) {
                None => (self, Err(CMShadowUpAllError::UnableToGetContractAllocsSum(c))),
                Some(sp) => if sp.allocs_sum == 0 {
                    (self, Err(CMShadowUpAllError::OperationNotPossibleWithZeroAllocsSum(c)))
                } else if sp.allocs_sum + up > bal {
                    (self, Err(CMShadowUpAllError::AllocsSumExceedsTheContractBalance(c, (sp.allocs_sum + up) as u64, bal)))
                } else {
                    (
                        self.ensure_space(c@).with_space(
                            c@,
                            ShadowSpaceView {
                                allocs_sum: (sp.allocs_sum + up) as u64,
                                deferred: (sp.deferred + (up as i64)) as i64,
                                ..sp
                            },
                        ),
                        Ok(sp.allocs.dom().len() as u64),
                    )
                },
            },
        }
    }

    /// The arithmetic of `shadow_up_all` stays in range: the increase fits the signed deferred change,
    /// so that it is recorded as an increase.
    pub open spec fn shadow_up_all_safe(self, c: Key, up: u64) -> bool {
        &&& up <= i64::MAX
        &&& self.space(c@) matches Some(sp) ==> {
            &&& sp.allocs_sum + up <= u64::MAX
            &&& i64::MIN <= sp.deferred + (up as i64) <= i64::MAX
        }
    }

    /// Outcome of proportionally decreasing every allocation of a contract's shadow space: the allocs sum
    /// shrinks at once and the change is recorded as deferred; the result is the number of allocations.
    pub open spec fn shadow_down_all(self, c: Key, down: u64) -> (Self, Result<u64, CMShadowDownAllError>) {
        match self.contract_balance(c@) {
            None => (self, Err(CMShadowDownAllError::UnableToGetContractBalance(c))),
            Some(bal) => match self.space(c@) {
                None => (self, Err(CMShadowDownAllError::UnableToGetContractAllocsSum(c))),
                Some(sp) => if sp.allocs_sum == 0 {
                    (self, Err(CMShadowDownAllError::OperationNotPossibleWithZeroAllocsSum(c)))
                } else if down > sp.allocs_sum {
                    (self, Err(CMShadowDownAllError::AllocsSumWouldGoBelowZero(c, sp.allocs_sum, down)))
                } else if sp.allocs_sum - down > bal {
                    (self, Err(CMShadowDownAllError::AllocsSumExceedsTheContractBalance(c, (sp.allocs_sum - down) as u64, bal)))
                } else {
                    (
                        self.ensure_space(c@).with_space(
                            c@,
                            ShadowSpaceView {
                                allocs_sum: (sp.allocs_sum - down) as u64,
                                deferred: (sp.deferred - (down as i64)) as i64,
                                ..sp
                            },
                        ),
                        Ok(sp.allocs.dom().len() as u64),
                    )
                },
            },
        }
    }

    /// The arithmetic of `shadow_down_all` stays in range: the decrease fits the signed deferred
    /// change, so that it is recorded as a decrease.
    pub open spec fn shadow_down_all_safe(self, c: Key, down: u64) -> bool {
        &&& down <= i64::MAX
        &&& self.space(c@) matches Some(sp) ==> i64::MIN <= sp.deferred - (down as i64) <= i64::MAX
    }

}

/// The signed amount by which a space's deferred change moves an account's allocation, in
/// sati-satoshis: positive for an up-all, negative for a down-all, zero without an allocation.
pub open spec fn signed_share(sp: ShadowSpace, a: Seq<u8>) -> int {
    if sp.allocs@.dom().contains(a) {
        let s = super::shadow_space::deferred_share(sp.allocs@[a], sp.shadow_up_all_down_alls, sp.allocs_sum);
        if sp.shadow_up_all_down_alls > 0 {
            s
        } else {
            -s
        }
    } else {
        0
    }
}

/// The total amount by which the deferred changes of the given spaces move an account's allocations.
pub open spec fn deferred_sum(spaces: Map<Seq<u8>, ShadowSpace>, keys: Seq<Key>, a: Seq<u8>) -> int
    decreases keys.len(),
{
    if keys.len() == 0 {
        0
    } else {
        deferred_sum(spaces, keys.drop_last(), a) + signed_share(spaces[keys.last()@], a)
    }
}

/// The running total of the deferred changes that move an account's allocations stays in range.
pub open spec fn deferred_sum_computable(spaces: Map<Seq<u8>, ShadowSpace>, keys: Seq<Key>, a: Seq<u8>) -> bool
    decreases keys.len(),
{
    keys.len() == 0 || {
        let sp = spaces[keys.last()@];
        &&& deferred_sum_computable(spaces, keys.drop_last(), a)
        &&& sp.allocs@.dom().contains(a) ==> {
            &&& deferred_computable(sp.allocs@[a], sp.shadow_up_all_down_alls, sp.allocs_sum)
            &&& super::shadow_space::deferred_share(sp.allocs@[a], sp.shadow_up_all_down_alls, sp.allocs_sum) <= i128::MAX
        }
        &&& i128::MIN <= deferred_sum(spaces, keys, a) <= i128::MAX
    }
}

/// Relates a call's result and final state to a specified outcome: on failure the state is unchanged.
pub open spec fn follows<E>(old_s: CoinManagerView, new_s: CoinManagerView, r: Result<(), E>, outcome: Result<CoinManagerView, E>) -> bool {
    match outcome {
        Ok(s) => r == Ok::<(), E>(()) && new_s == s,
        Err(e) => r == Err::<(), E>(e) && new_s == old_s,
    }
}

impl CoinManager {
    /// A coin manager over the given permanent account and contract bodies, with no ephemeral change.
    pub fn from_bodies(accounts: KeyMap<CMAccountBody>, contracts: KeyMap<CMContractBody>) -> (r: Self)
        ensures
            r@ == CoinManagerView::with_permanent(accounts@, contract_map_view(contracts@)),
    {
        CoinManager {
            in_memory_accounts: accounts,
            in_memory_contracts: contracts,
            delta: CMDelta::fresh_new(),
            backup_of_delta: CMDelta::fresh_new(),
        }
    }

    /// Clones the delta into the backup.
    fn backup_delta(&mut self)
        ensures
            final(self)@ == (CoinManagerView { backup: old(self)@.delta, ..old(self)@ }),
    {
        self.backup_of_delta = self.delta.duplicate();
    }

    /// Restores the delta from the backup.
    fn restore_delta(&mut self)
        ensures
            final(self)@ == (CoinManagerView { delta: old(self)@.backup, ..old(self)@ }),
    {
        self.delta = self.backup_of_delta.duplicate();
    }

    /// Prepares the coin manager before each execution: backs up the delta.
    pub fn pre_execution(&mut self)
        ensures
            final(self)@ == (CoinManagerView { backup: old(self)@.delta, ..old(self)@ }),
    {
        self.backup_delta();
    }

    /// The permanent body of an account.
    pub fn get_account_body(&self, account_key: Key) -> (r: Option<CMAccountBody>)
        ensures
            r == (if self@.accounts.dom().contains(account_key@) {
                Some(self@.accounts[account_key@])
            } else {
                None::<CMAccountBody>
            }),
    {
        match self.in_memory_accounts.get(&account_key) {
            Some(b) => Some(*b),
            None => None,
        }
    }

    /// A copy of the permanent body of a contract.
    pub fn get_contract_body(&self, contract_id: Key) -> (r: Option<CMContractBody>)
        ensures
            match r {
                Some(b) => self@.contracts.dom().contains(contract_id@) && b@ == self@.contracts[contract_id@],
                None => !self@.contracts.dom().contains(contract_id@),
            },
    {
        match self.in_memory_contracts.get(&contract_id) {
            Some(b) => Some(b.duplicate()),
            None => None,
        }
    }

    /// The permanently registered accounts, in registration order.
    pub fn registered_accounts(&self) -> (r: Vec<Key>)
        ensures
            forall|k: Seq<u8>| self@.accounts.dom().contains(k) <==> key_views(r@).contains(k),
    {
        let r = self.in_memory_accounts.keys();
        proof {
            self.in_memory_accounts.lemma_dom_keys();
            assert(key_views(r@) == self.in_memory_accounts.key_seq());
        }
        r
    }

    /// The permanently registered contracts, in registration order.
    pub fn registered_contracts(&self) -> (r: Vec<Key>)
        ensures
            forall|c: Seq<u8>| self@.contracts.dom().contains(c) <==> key_views(r@).contains(c),
    {
        let r = self.in_memory_contracts.keys();
        proof {
            self.in_memory_contracts.lemma_dom_keys();
            assert(self@.contracts.dom() =~= self.in_memory_contracts@.dom());
            assert(key_views(r@) == self.in_memory_contracts.key_seq());
        }
        r
    }

    /// Whether an account is permanently registered (ephemeral registrations are not counted).
    pub fn is_account_registered(&self, account_key: Key) -> (r: bool)
        ensures
            r == self@.accounts.dom().contains(account_key@),
    {
        self.in_memory_accounts.contains_key(&account_key)
    }

    /// Whether a contract is permanently registered (ephemeral registrations are not counted).
    pub fn is_contract_registered(&self, contract_id: Key) -> (r: bool)
        ensures
            r == self@.contracts.dom().contains(contract_id@),
    {
        self.in_memory_contracts.contains_key(&contract_id)
    }

    /// An account's balance in satoshis.
    pub fn get_account_balance(&self, account_key: Key) -> (r: Option<u64>)
        ensures
            r == self@.account_balance(account_key@),
    {
        if let Some(v) = self.delta.updated_account_balances.get(&account_key) {
            return Some(*v);
        }
        match self.in_memory_accounts.get(&account_key) {
            Some(b) => Some(b.balance),
            None => None,
        }
    }

    /// A contract's balance in satoshis.
    pub fn get_contract_balance(&self, contract_id: Key) -> (r: Option<u64>)
        ensures
            r == self@.contract_balance(contract_id@),
    {
        if let Some(v) = self.delta.updated_contract_balances.get(&contract_id) {
            return Some(*v);
        }
        match self.in_memory_contracts.get(&contract_id) {
            Some(b) => Some(b.balance),
            None => None,
        }
    }

    /// An account's global shadow allocs sum without deferred changes, in sati-satoshis.
    pub(crate) fn get_account_global_shadow_allocs_sum_in_sati_satoshis_base(&self, account_key: Key) -> (r: Option<u128>)
        ensures
            r == self@.base_global_sum(account_key@),
    {
        if let Some(v) = self.delta.updated_shadow_allocs_sums.get(&account_key) {
            return Some(*v);
        }
        match self.in_memory_accounts.get(&account_key) {
            Some(b) => Some(b.global_shadow_allocs_sum),
            None => None,
        }
    }

    /// An account's global shadow allocs sum without deferred changes, in whole satoshis.
    pub fn get_account_global_shadow_allocs_sum_in_satoshis_base(&self, account_key: Key) -> (r: Option<u64>)
        ensures
            r == match self@.base_global_sum(account_key@) {
                Some(v) => Some((v / 100_000_000) as u64),
                None => None::<u64>,
            },
    {
        let v = self.get_account_global_shadow_allocs_sum_in_sati_satoshis_base(account_key)?;
        Some((v / ONE_SATOSHI_IN_SATI_SATOSHIS) as u64)
    }

    /// The sum of a contract's shadow allocations, in satoshis.
    pub fn get_contract_shadow_allocs_sum_in_satoshis(&self, contract_id: Key) -> (r: Option<u64>)
        ensures
            r == match self@.space(contract_id@) {
                Some(s) => Some(s.allocs_sum),
                None => None::<u64>,
            },
    {
        if let Some(s) = self.delta.updated_shadow_spaces.get(&contract_id) {
            return Some(s.allocs_sum);
        }
        match self.in_memory_contracts.get(&contract_id) {
            Some(b) => Some(b.shadow_space.allocs_sum),
            None => None,
        }
    }

    /// The number of allocations in a contract's shadow space.
    pub fn get_contract_num_shadow_allocs(&self, contract_id: Key) -> (r: Option<u64>)
        ensures
            r == match self@.space(contract_id@) {
                Some(s) => Some(s.allocs.dom().len() as u64),
                None => None::<u64>,
            },
            self@.space(contract_id@) matches Some(s) ==> s.allocs.dom().finite() && s.allocs.dom().len() <= u64::MAX,
    {
        if let Some(s) = self.delta.updated_shadow_spaces.get(&contract_id) {
            return Some(s.allocs.len() as u64);
        }
        match self.in_memory_contracts.get(&contract_id) {
            Some(b) => Some(b.shadow_space.allocs.len() as u64),
            None => None,
        }
    }

    /// An account's allocation in a contract's shadow space without deferred changes, in sati-satoshis.
    fn get_shadow_alloc_value_in_sati_satoshis_base(&self, contract_id: Key, account_key: Key) -> (r: Option<u128>)
        ensures
            r == self@.base_alloc(contract_id@, account_key@),
    {
        if let Some(list) = self.delta.deallocs_list.get(&contract_id) {
            if keys_contain(list, &account_key) {
                return None;
            }
        }
        if let Some(s) = self.delta.updated_shadow_spaces.get(&contract_id) {
            return match s.allocs.get(&account_key) {
                Some(v) => Some(*v),
                None => None,
            };
        }
        match self.in_memory_contracts.get(&contract_id) {
            Some(b) => match b.shadow_space.allocs.get(&account_key) {
                Some(v) => Some(*v),
                None => None,
            },
            None => None,
        }
    }

    /// An account's allocation in a contract's shadow space, with its share of any deferred change, in sati-satoshis.
    pub fn get_shadow_alloc_value_in_sati_satoshis(&self, contract_id: Key, account_key: Key) -> (r: Option<u128>)
        requires
            self@.alloc_value_computable(contract_id@, account_key@),
        ensures
            r == self@.alloc_value(contract_id@, account_key@),
    {
        if let Some(list) = self.delta.deallocs_list.get(&contract_id) {
            if keys_contain(list, &account_key) {
                return None;
            }
        }
        if let Some(s) = self.delta.updated_shadow_spaces.get(&contract_id) {
            let base = match s.allocs.get(&account_key) {
                Some(v) => *v,
                None => {
                    return None;
                },
            };
            let (value, _) = apply_deferred_change(base, s.shadow_up_all_down_alls, s.allocs_sum);
            return Some(value);
        }
        match self.in_memory_contracts.get(&contract_id) {
            Some(b) => match b.shadow_space.allocs.get(&account_key) {
                Some(v) => Some(*v),
                None => None,
            },
            None => None,
        }
    }

    /// An account's allocation in a contract's shadow space, in whole satoshis.
    pub fn get_shadow_alloc_value_in_satoshis(&self, contract_id: Key, account_key: Key) -> (r: Option<u64>)
        requires
            self@.alloc_value_computable(contract_id@, account_key@),
        ensures
            r == match self@.alloc_value(contract_id@, account_key@) {
                Some(v) => Some((v / 100_000_000) as u64),
                None => None::<u64>,
            },
    {
        let v = self.get_shadow_alloc_value_in_sati_satoshis(contract_id, account_key)?;
        Some((v / ONE_SATOSHI_IN_SATI_SATOSHIS) as u64)
    }

    /// Registers an account with an initial balance, to be saved by `apply_changes`.
    pub fn register_account(&mut self, account_key: Key, initial_account_balance: u64) -> (r: Result<(), CMRegisterAccountError>)
        ensures
            follows(old(self)@, final(self)@, r, old(self)@.register_account(account_key, initial_account_balance)),
    {
        if crate::keymap::key_eq(&account_key, &CONTRACT_BALANCE_SPECIAL_DB_KEY)
            || crate::keymap::key_eq(&account_key, &CONTRACT_ALLOCS_SUM_SPECIAL_DB_KEY) {
            assert(CONTRACT_BALANCE_SPECIAL_DB_KEY@ =~= contract_balance_db_key());
            assert(CONTRACT_ALLOCS_SUM_SPECIAL_DB_KEY@ =~= contract_allocs_sum_db_key());
            return Err(CMRegisterAccountError::AccountKeyCannotBeTheSpecialDbKeys(account_key));
        }
        assert(CONTRACT_BALANCE_SPECIAL_DB_KEY@ =~= contract_balance_db_key());
        assert(CONTRACT_ALLOCS_SUM_SPECIAL_DB_KEY@ =~= contract_allocs_sum_db_key());
        if self.delta.new_accounts_to_register.contains_key(&account_key) {
            return Err(CMRegisterAccountError::AccountHasJustBeenEphemerallyRegistered(account_key));
        }
        if self.is_account_registered(account_key) {
            return Err(CMRegisterAccountError::AccountIsAlreadyPermanentlyRegistered(account_key));
        }
        self.delta.new_accounts_to_register.insert(account_key, initial_account_balance);
        proof {
            assert(self@ =~= old(self)@.register_account(account_key, initial_account_balance)->Ok_0);
        }
        Ok(())
    }

    /// Registers a contract with an initial balance, to be saved by `apply_changes`.
    pub fn register_contract(&mut self, contract_id: Key, initial_contract_balance: u64) -> (r: Result<(), CMRegisterContractError>)
        ensures
            follows(old(self)@, final(self)@, r, old(self)@.register_contract(contract_id, initial_contract_balance)),
    {
        if self.delta.new_contracts_to_register.contains_key(&contract_id) {
            return Err(CMRegisterContractError::ContractHasJustBeenEphemerallyRegistered(contract_id));
        }
        if self.is_contract_registered(contract_id) {
            return Err(CMRegisterContractError::ContractIsAlreadyPermanentlyRegistered(contract_id));
        }
        self.delta.new_contracts_to_register.insert(contract_id, initial_contract_balance);
        proof {
            assert(self@ =~= old(self)@.register_contract(contract_id, initial_contract_balance)->Ok_0);
        }
        Ok(())
    }

    /// Makes sure the contract's shadow space is among the ephemeral changes; returns whether the contract has one.
    fn ensure_ephemeral_space(&mut self, contract_id: Key) -> (r: bool)
        ensures
            final(self)@ == old(self)@.ensure_space(contract_id@),
            r == old(self)@.space(contract_id@) is Some,
    {
        if self.delta.updated_shadow_spaces.contains_key(&contract_id) {
            return true;
        }
        match self.in_memory_contracts.get(&contract_id) {
            Some(b) => {
                let sp = b.shadow_space.duplicate();
                let ghost m0 = self.delta.updated_shadow_spaces@;
                self.delta.updated_shadow_spaces.insert(contract_id, sp);
                assert(space_map_view(self.delta.updated_shadow_spaces@) =~= space_map_view(m0).insert(contract_id@, sp@));
                assert(self@ =~= old(self)@.ensure_space(contract_id@));
                true
            },
            None => false,
        }
    }

    /// Takes a contract's ephemeral shadow space out, leaving an empty one in its place.
    fn take_ephemeral_space(&mut self, contract_id: Key) -> (r: ShadowSpace)
        requires
            old(self)@.delta.updated_shadow_spaces.dom().contains(contract_id@),
        ensures
            r@ == old(self)@.delta.updated_shadow_spaces[contract_id@],
            final(self)@ == old(self)@.with_space(contract_id@, ShadowSpaceView { allocs_sum: 0, allocs: Map::empty(), deferred: 0 }),
    {
        let mut sp = ShadowSpace::fresh_new();
        let ghost m0 = self.delta.updated_shadow_spaces@;
        let ghost e = sp@;
        self.delta.updated_shadow_spaces.swap_value(&contract_id, &mut sp);
        assert(space_map_view(self.delta.updated_shadow_spaces@) =~= space_map_view(m0).insert(contract_id@, e));
        assert(self@ =~= old(self)@.with_space(contract_id@, e));
        sp
    }

    /// Stores a contract's ephemeral shadow space.
    fn put_ephemeral_space(&mut self, contract_id: Key, sp: ShadowSpace)
        ensures
            final(self)@ == old(self)@.with_space(contract_id@, sp@),
    {
        let ghost m0 = self.delta.updated_shadow_spaces@;
        let ghost v = sp@;
        self.delta.updated_shadow_spaces.insert(contract_id, sp);
        assert(space_map_view(self.delta.updated_shadow_spaces@) =~= space_map_view(m0).insert(contract_id@, v));
        assert(self@ =~= old(self)@.with_space(contract_id@, v));
    }

    /// Increases an account's balance, to be saved by `apply_changes`.
    pub fn account_balance_up(&mut self, account_key: Key, up_value_in_satoshis: u64) -> (r: Result<(), CMAccountBalanceUpError>)
        requires
            old(self)@.account_balance(account_key@) matches Some(b) ==> b + up_value_in_satoshis <= u64::MAX,
        ensures
            follows(old(self)@, final(self)@, r, old(self)@.account_balance_up(account_key, up_value_in_satoshis)),
    {
        let balance = match self.get_account_balance(account_key) {
            Some(b) => b,
            None => {
                return Err(CMAccountBalanceUpError::UnableToGetAccountBalance(account_key));
            },
        };
        let new_balance: u64 = balance + up_value_in_satoshis;
        self.delta.epheremally_update_account_balance(account_key, new_balance);
        assert(self@ =~= old(self)@.with_account_balance(account_key@, new_balance));
        Ok(())
    }

    /// Decreases an account's balance, to be saved by `apply_changes`.
    pub fn account_balance_down(&mut self, account_key: Key, down_value_in_satoshis: u64) -> (r: Result<(), CMAccountBalanceDownError>)
        ensures
            follows(old(self)@, final(self)@, r, old(self)@.account_balance_down(account_key, down_value_in_satoshis)),
    {
        let balance = match self.get_account_balance(account_key) {
            Some(b) => b,
            None => {
                return Err(CMAccountBalanceDownError::UnableToGetAccountBalance(account_key));
            },
        };
        if down_value_in_satoshis > balance {
            return Err(CMAccountBalanceDownError::AccountBalanceWouldGoBelowZero(account_key, balance, down_value_in_satoshis));
        }
        let new_balance: u64 = balance - down_value_in_satoshis;
        self.delta.epheremally_update_account_balance(account_key, new_balance);
        assert(self@ =~= old(self)@.with_account_balance(account_key@, new_balance));
        Ok(())
    }

    /// Increases a contract's balance, to be saved by `apply_changes`.
    pub fn contract_balance_up(&mut self, contract_id: Key, up_value_in_satoshis: u64) -> (r: Result<(), CMContractBalanceUpError>)
        requires
            old(self)@.contract_balance(contract_id@) matches Some(b) ==> b + up_value_in_satoshis <= u64::MAX,
        ensures
            follows(old(self)@, final(self)@, r, old(self)@.contract_balance_up(contract_id, up_value_in_satoshis)),
    {
        let balance = match self.get_contract_balance(contract_id) {
            Some(b) => b,
            None => {
                return Err(CMContractBalanceUpError::UnableToGetContractBalance(contract_id));
            },
        };
        let new_balance: u64 = balance + up_value_in_satoshis;
        self.delta.epheremally_update_contract_balance(contract_id, new_balance);
        assert(self@ =~= old(self)@.with_contract_balance(contract_id@, new_balance));
        Ok(())
    }

    /// Decreases a contract's balance, to be saved by `apply_changes`; it may not go below the allocs sum.
    pub fn contract_balance_down(&mut self, contract_id: Key, down_value_in_satoshis: u64) -> (r: Result<(), CMContractBalanceDownError>)
        ensures
            follows(old(self)@, final(self)@, r, old(self)@.contract_balance_down(contract_id, down_value_in_satoshis)),
    {
        let balance = match self.get_contract_balance(contract_id) {
            Some(b) => b,
            None => {
                return Err(CMContractBalanceDownError::UnableToGetContractBalance(contract_id));
            },
        };
        if down_value_in_satoshis > balance {
            return Err(CMContractBalanceDownError::ContractBalanceWouldGoBelowZero(contract_id, balance, down_value_in_satoshis));
        }
        let new_balance: u64 = balance - down_value_in_satoshis;
        let allocs_sum = match self.get_contract_shadow_allocs_sum_in_satoshis(contract_id) {
            Some(v) => v,
            None => {
                return Err(CMContractBalanceDownError::UnableToGetContractAllocsSum(contract_id));
            },
        };
        if new_balance < allocs_sum {
            return Err(CMContractBalanceDownError::ContractBalanceWouldGoBelowAllocsSum(contract_id, new_balance, allocs_sum));
        }
        self.delta.epheremally_update_contract_balance(contract_id, new_balance);
        assert(self@ =~= old(self)@.with_contract_balance(contract_id@, new_balance));
        Ok(())
    }

    /// Whether an account is on a contract's list in a map of key lists.
    fn listed(lists: &KeyMap<Vec<Key>>, contract_id: &Key, account_key: &Key) -> (r: bool)
        ensures
            r == (super::delta::list_map_view(lists@).dom().contains(contract_id@)
                && super::delta::list_map_view(lists@)[contract_id@].contains(account_key@)),
    {
        match lists.get(contract_id) {
            Some(list) => keys_contain(list, account_key),
            None => false,
        }
    }

    /// Allocates an account, with a zero value, in a contract's shadow space, to be saved by `apply_changes`.
    pub fn contract_shadow_alloc_account(&mut self, contract_id: Key, account_key: Key) -> (r: Result<(), CMContractShadowAllocAccountError>)
        ensures
            follows(old(self)@, final(self)@, r, old(self)@.shadow_alloc_account(contract_id, account_key)),
    {
        if Self::listed(&self.delta.allocs_list, &contract_id, &account_key) {
            return Err(CMContractShadowAllocAccountError::AccountHasJustBeenEphemerallyAllocated(contract_id, account_key));
        }
        if Self::listed(&self.delta.deallocs_list, &contract_id, &account_key) {
            return Err(CMContractShadowAllocAccountError::AccountHasJustBeenEphemerallyDeallocated(contract_id, account_key));
        }
        if self.get_shadow_alloc_value_in_sati_satoshis_base(contract_id, account_key).is_some() {
            return Err(CMContractShadowAllocAccountError::AccountIsAlreadyPermanentlyAllocated(contract_id, account_key));
        }
        if !self.ensure_ephemeral_space(contract_id) {
            return Err(CMContractShadowAllocAccountError::UnableToGetMutEphemeralShadowSpace(contract_id));
        }
        let mut sp = self.take_ephemeral_space(contract_id);
        sp.insert_update_alloc(account_key, 0);
        self.put_ephemeral_space(contract_id, sp);
        self.delta.epheremally_insert_alloc(contract_id, account_key);
        assert(self@ =~= old(self)@.shadow_alloc_account(contract_id, account_key)->Ok_0);
        Ok(())
    }

    /// Deallocates an account, whose allocation must be zero, from a contract's shadow space, to be saved by `apply_changes`.
    pub fn contract_shadow_dealloc_account(&mut self, contract_id: Key, account_key: Key) -> (r: Result<(), CMContractShadowDeallocAccountError>)
        ensures
            follows(old(self)@, final(self)@, r, old(self)@.shadow_dealloc_account(contract_id, account_key)),
    {
        if Self::listed(&self.delta.allocs_list, &contract_id, &account_key) {
            return Err(CMContractShadowDeallocAccountError::AccountHasJustBeenEphemerallyAllocated(contract_id, account_key));
        }
        if Self::listed(&self.delta.deallocs_list, &contract_id, &account_key) {
            return Err(CMContractShadowDeallocAccountError::AccountHasJustBeenEphemerallyDeallocated(contract_id, account_key));
        }
        let value = match self.get_shadow_alloc_value_in_sati_satoshis_base(contract_id, account_key) {
            Some(v) => v,
            None => {
                return Err(CMContractShadowDeallocAccountError::UnableToGetAccountAllocValue(contract_id, account_key));
            },
        };
        if value != 0 {
            return Err(CMContractShadowDeallocAccountError::AllocValueIsNonZero(contract_id, account_key));
        }
        if !self.ensure_ephemeral_space(contract_id) {
            return Err(CMContractShadowDeallocAccountError::UnableToGetMutEphemeralShadowSpace(contract_id));
        }
        let mut sp = self.take_ephemeral_space(contract_id);
        sp.remove_alloc(account_key);
        self.put_ephemeral_space(contract_id, sp);
        self.delta.epheremally_insert_dealloc(contract_id, account_key);
        assert(self@ =~= old(self)@.shadow_dealloc_account(contract_id, account_key)->Ok_0);
        Ok(())
    }

    /// Increases an account's global shadow allocs sum, to be saved by `apply_changes`.
    fn account_global_shadow_allocs_sum_up(&mut self, account_key: Key, up_value_in_sati_satoshis: u128) -> (r: Result<(), CMAccountShadowAllocsSumUpError>)
        requires
            old(self)@.base_global_sum(account_key@) matches Some(g) ==> g + up_value_in_sati_satoshis <= u128::MAX,
        ensures
            follows(old(self)@, final(self)@, r, old(self)@.global_sum_up(account_key, up_value_in_sati_satoshis)),
    {
        let g = match self.get_account_global_shadow_allocs_sum_in_sati_satoshis_base(account_key) {
            Some(v) => v,
            None => {
                return Err(CMAccountShadowAllocsSumUpError::UnableToGetAccountShadowAllocsSum(account_key));
            },
        };
        let new_g: u128 = g + up_value_in_sati_satoshis;
        self.delta.epheremally_update_account_shadow_allocs_sum(account_key, new_g);
        assert(self@ =~= old(self)@.with_global_sum(account_key@, new_g));
        Ok(())
    }

    /// Decreases an account's global shadow allocs sum, to be saved by `apply_changes`.
    fn account_global_shadow_allocs_sum_down(&mut self, account_key: Key, down_value_in_sati_satoshis: u128) -> (r: Result<(), CMAccountShadowAllocsSumDownError>)
        ensures
            follows(old(self)@, final(self)@, r, old(self)@.global_sum_down(account_key, down_value_in_sati_satoshis)),
    {
        let g = match self.get_account_global_shadow_allocs_sum_in_sati_satoshis_base(account_key) {
            Some(v) => v,
            None => {
                return Err(CMAccountShadowAllocsSumDownError::UnableToGetAccountShadowAllocsSum(account_key));
            },
        };
        if down_value_in_sati_satoshis > g {
            return Err(CMAccountShadowAllocsSumDownError::AccountShadowAllocsSumWouldGoBelowZero(account_key, g, down_value_in_sati_satoshis));
        }
        let new_g: u128 = g - down_value_in_sati_satoshis;
        self.delta.epheremally_update_account_shadow_allocs_sum(account_key, new_g);
        assert(self@ =~= old(self)@.with_global_sum(account_key@, new_g));
        Ok(())
    }

    /// Increases an account's allocation in a contract's shadow space, to be saved by `apply_changes`.
    pub fn shadow_up(&mut self, contract_id: Key, account_key: Key, up_value_in_satoshis: u64) -> (r: Result<(), CMShadowUpError>)
        requires
            old(self)@.shadow_up_safe(contract_id, account_key, up_value_in_satoshis),
        ensures
            (final(self)@, r) == old(self)@.shadow_up(contract_id, account_key, up_value_in_satoshis),
    {
        let up_sati: u128 = (up_value_in_satoshis as u128) * ONE_SATOSHI_IN_SATI_SATOSHIS;
        let value = match self.get_shadow_alloc_value_in_sati_satoshis_base(contract_id, account_key) {
            Some(v) => v,
            None => {
                return Err(CMShadowUpError::UnableToGetAccountShadowAllocValue(contract_id, account_key));
            },
        };
        let new_value: u128 = value + up_sati;
        let balance = match self.get_contract_balance(contract_id) {
            Some(b) => b,
            None => {
                return Err(CMShadowUpError::UnableToGetContractBalance(contract_id));
            },
        };
        if !self.ensure_ephemeral_space(contract_id) {
            return Err(CMShadowUpError::UnableToGetMutEphemeralShadowSpace(contract_id));
        }
        let ghost s1 = self@;
        let mut sp = self.take_ephemeral_space(contract_id);
        let new_sum: u64 = sp.allocs_sum + up_value_in_satoshis;
        if new_sum > balance {
            self.put_ephemeral_space(contract_id, sp);
            assert(self@ =~= s1);
            return Err(CMShadowUpError::AllocsSumExceedsTheContractBalance(contract_id, new_sum, balance));
        }
        sp.insert_update_alloc(account_key, new_value);
        sp.update_allocs_sum(new_sum);
        self.put_ephemeral_space(contract_id, sp);
        let ghost s2 = self@;
        assert(s2 =~= s1.with_space(contract_id@, ShadowSpaceView {
            allocs_sum: new_sum,
            allocs: s1.delta.updated_shadow_spaces[contract_id@].allocs.insert(account_key@, new_value),
            ..s1.delta.updated_shadow_spaces[contract_id@]
        }));
        match self.account_global_shadow_allocs_sum_up(account_key, up_sati) {
            Ok(()) => Ok(()),
            Err(e) => Err(CMShadowUpError::AccountShadowAllocsSumUpError(contract_id, account_key, e)),
        }
    }

    /// Decreases an account's allocation in a contract's shadow space, to be saved by `apply_changes`.
    pub fn shadow_down(&mut self, contract_id: Key, account_key: Key, down_value_in_satoshis: u64) -> (r: Result<(), CMShadowDownError>)
        ensures
            (final(self)@, r) == old(self)@.shadow_down(contract_id, account_key, down_value_in_satoshis),
    {
        let down_sati: u128 = (down_value_in_satoshis as u128) * ONE_SATOSHI_IN_SATI_SATOSHIS;
        let value = match self.get_shadow_alloc_value_in_sati_satoshis_base(contract_id, account_key) {
            Some(v) => v,
            None => {
                return Err(CMShadowDownError::UnableToGetAccountShadowAllocValue(contract_id, account_key));
            },
        };
        if down_sati > value {
            return Err(CMShadowDownError::AccountShadowAllocValueWouldGoBelowZero(contract_id, account_key, value, down_sati));
        }
        let new_value: u128 = value - down_sati;
        if !self.ensure_ephemeral_space(contract_id) {
            return Err(CMShadowDownError::UnableToGetMutEphemeralShadowSpace(contract_id));
        }
        let ghost s1 = self@;
        let mut sp = self.take_ephemeral_space(contract_id);
        let allocs_sum = sp.allocs_sum;
        if down_value_in_satoshis > allocs_sum {
            self.put_ephemeral_space(contract_id, sp);
            assert(self@ =~= s1);
            return Err(CMShadowDownError::ContractShadowAllocsSumWouldGoBelowZero(contract_id, allocs_sum, down_value_in_satoshis));
        }
        let new_sum: u64 = allocs_sum - down_value_in_satoshis;
        sp.insert_update_alloc(account_key, new_value);
        sp.update_allocs_sum(new_sum);
        self.put_ephemeral_space(contract_id, sp);
        let ghost s2 = self@;
        assert(s2 =~= s1.with_space(contract_id@, ShadowSpaceView {
            allocs_sum: new_sum,
            allocs: s1.delta.updated_shadow_spaces[contract_id@].allocs.insert(account_key@, new_value),
            ..s1.delta.updated_shadow_spaces[contract_id@]
        }));
        match self.account_global_shadow_allocs_sum_down(account_key, down_sati) {
            Ok(()) => Ok(()),
            Err(e) => Err(CMShadowDownError::AccountShadowAllocsSumDownError(contract_id, account_key, e)),
        }
    }

    /// Proportionally increases every allocation of a contract's shadow space; the distribution is deferred to `apply_changes`.
    pub fn shadow_up_all(&mut self, contract_id: Key, up_value_in_satoshis: u64) -> (r: Result<u64, CMShadowUpAllError>)
        requires
            old(self)@.shadow_up_all_safe(contract_id, up_value_in_satoshis),
        ensures
            (final(self)@, r) == old(self)@.shadow_up_all(contract_id, up_value_in_satoshis),
    {
        let balance = match self.get_contract_balance(contract_id) {
            Some(b) => b,
            None => {
                return Err(CMShadowUpAllError::UnableToGetContractBalance(contract_id));
            },
        };
        let allocs_sum = match self.get_contract_shadow_allocs_sum_in_satoshis(contract_id) {
            Some(v) => v,
            None => {
                return Err(CMShadowUpAllError::UnableToGetContractAllocsSum(contract_id));
            },
        };
        if allocs_sum == 0 {
            return Err(CMShadowUpAllError::OperationNotPossibleWithZeroAllocsSum(contract_id));
        }
        let new_sum: u64 = allocs_sum + up_value_in_satoshis;
        if new_sum > balance {
            return Err(CMShadowUpAllError::AllocsSumExceedsTheContractBalance(contract_id, new_sum, balance));
        }
        if !self.ensure_ephemeral_space(contract_id) {
            return Err(CMShadowUpAllError::UnableToGetMutEphemeralShadowSpace(contract_id));
        }
        let ghost s1 = self@;
        let mut sp = self.take_ephemeral_space(contract_id);
        sp.update_allocs_sum(new_sum);
        sp.add_deferred_proportional_change(up_value_in_satoshis as i64);
        let n = sp.allocs.len() as u64;
        self.put_ephemeral_space(contract_id, sp);
        assert(self@ =~= old(self)@.shadow_up_all(contract_id, up_value_in_satoshis).0);
        Ok(n)
    }

    /// Proportionally decreases every allocation of a contract's shadow space; the distribution is deferred to `apply_changes`.
    pub fn shadow_down_all(&mut self, contract_id: Key, down_value_in_satoshis: u64) -> (r: Result<u64, CMShadowDownAllError>)
        requires
            old(self)@.shadow_down_all_safe(contract_id, down_value_in_satoshis),
        ensures
            (final(self)@, r) == old(self)@.shadow_down_all(contract_id, down_value_in_satoshis),
    {
        let balance = match self.get_contract_balance(contract_id) {
            Some(b) => b,
            None => {
                return Err(CMShadowDownAllError::UnableToGetContractBalance(contract_id));
            },
        };
        let allocs_sum = match self.get_contract_shadow_allocs_sum_in_satoshis(contract_id) {
            Some(v) => v,
            None => {
                return Err(CMShadowDownAllError::UnableToGetContractAllocsSum(contract_id));
            },
        };
        if allocs_sum == 0 {
            return Err(CMShadowDownAllError::OperationNotPossibleWithZeroAllocsSum(contract_id));
        }
        if down_value_in_satoshis > allocs_sum {
            return Err(CMShadowDownAllError::AllocsSumWouldGoBelowZero(contract_id, allocs_sum, down_value_in_satoshis));
        }
        let new_sum: u64 = allocs_sum - down_value_in_satoshis;
        if new_sum > balance {
            return Err(CMShadowDownAllError::AllocsSumExceedsTheContractBalance(contract_id, new_sum, balance));
        }
        if !self.ensure_ephemeral_space(contract_id) {
            return Err(CMShadowDownAllError::UnableToGetMutEphemeralShadowSpace(contract_id));
        }
        let mut sp = self.take_ephemeral_space(contract_id);
        sp.update_allocs_sum(new_sum);
        sp.add_deferred_proportional_change(-(down_value_in_satoshis as i64));
        let n = sp.allocs.len() as u64;
        self.put_ephemeral_space(contract_id, sp);
        assert(self@ =~= old(self)@.shadow_down_all(contract_id, down_value_in_satoshis).0);
        Ok(n)
    }

    /// The accounts whose coins changed in one way or another, each listed once.
    pub fn get_coingap_accounts_list(&self) -> (r: Vec<Key>)
        ensures
            r@ == super::delta::affected_list(self.delta_exec()),
            key_views(r@).no_duplicates(),
            key_views(r@).to_set() == self@.delta.updated_account_balances.dom().union(
                self@.delta.updated_shadow_allocs_sums.dom(),
            ),
    {
        self.delta.affected_accounts_list()
    }

    /// Reverts the ephemeral changes of the last execution.
    pub fn rollback_last(&mut self)
        ensures
            final(self)@ == (CoinManagerView { delta: old(self)@.backup, ..old(self)@ }),
    {
        self.restore_delta();
    }

    /// Clears all ephemeral changes and their backup.
    pub fn flush_delta(&mut self)
        ensures
            final(self)@ == (CoinManagerView { delta: CMDeltaView::empty(), backup: CMDeltaView::empty(), ..old(self)@ }),
    {
        self.delta.flush();
        self.backup_of_delta.flush();
    }

    /// An account's target flame value: its balance plus its global shadow allocs sum in whole satoshis.
    pub fn get_account_target_flame_value_in_satoshis(&self, account_key: Key) -> (r: Option<u64>)
        requires
            self@.account_balance(account_key@) matches Some(b) ==> (
                self@.base_global_sum(account_key@) matches Some(g) ==> b + (g / 100_000_000) as u64 <= u64::MAX),
        ensures
            r == match (self@.account_balance(account_key@), self@.base_global_sum(account_key@)) {
                (Some(b), Some(g)) => Some((b + (g / 100_000_000) as u64) as u64),
                _ => None::<u64>,
            },
    {
        let balance = self.get_account_balance(account_key)?;
        let sum = self.get_account_global_shadow_allocs_sum_in_satoshis_base(account_key)?;
        Some(balance + sum)
    }

    /// The ephemeral changes as held, with the order of their keys.
    pub closed spec fn delta_exec(&self) -> CMDelta {
        self.delta
    }

    /// The ephemeral changes as held are the ephemeral changes of the view.
    pub proof fn lemma_delta_exec(&self)
        ensures
            self.delta_exec()@ == self@.delta,
    {
    }

    /// Applies all ephemeral changes to the permanent state and appends the corresponding writes to
    /// `ops`, in order: new accounts, new contracts, account balances, contract balances, global
    /// shadow allocs sums (after every deferred proportional change is spread over its space's
    /// allocations), shadow spaces, then deallocations.
    #[verifier::rlimit(60)]
    #[verifier::spinoff_prover]
    pub fn apply_changes(&mut self, ops: &mut Vec<CMDiskOp>) -> (r: Result<(), CMApplyChangesError>)
        requires
            apply_changes_safe(old(self)@.accounts, old(self).delta_exec()),
        ensures
            apply_changes_outcome(
                old(self)@.accounts,
                old(self)@.contracts,
                old(self).delta_exec(),
                final(self)@.accounts,
                final(self)@.contracts,
                final(self).delta_exec(),
                final(ops)@.skip(old(ops)@.len() as int),
                r,
            ),
            final(self)@.backup == old(self)@.backup,
    {
        let ghost d = self.delta;
        let ghost ops0 = ops@;
        let ghost acc0 = self@.accounts;
        let ghost con0 = self@.contracts;
        register_new_accounts(&mut self.in_memory_accounts, &self.delta.new_accounts_to_register, ops);
        register_new_contracts(&mut self.in_memory_contracts, &self.delta.new_contracts_to_register, ops);
        let ghost a1 = self.in_memory_accounts@;
        let ghost ops2 = ops@;
        let ghost done2 = new_account_ops(d.new_accounts_to_register.raw_keys(), d.new_accounts_to_register@)
            + new_contract_ops(d.new_contracts_to_register.raw_keys(), d.new_contracts_to_register@);
        proof {
            assert(a1 == accounts_with_new(acc0, d));
            assert(contract_map_view(self.in_memory_contracts@) == contracts_with_new(con0, d));
            assert(ops2 =~= ops0 + done2);
        }
        let ghost full_d = all_apply_ops(d, d);
        let ghost a3_ops = account_balance_ops(d.updated_account_balances.raw_keys(), d.updated_account_balances@);
        let ghost c4_ops = contract_balance_ops(d.updated_contract_balances.raw_keys(), d.updated_contract_balances@);
        match store_account_balances(&mut self.in_memory_accounts, &self.delta.updated_account_balances, ops) {
            Err(k) => {
                proof {
                    let rest = c4_ops + global_sum_ops(d.updated_shadow_allocs_sums.raw_keys(), d.updated_shadow_allocs_sums@)
                        + space_ops(d.updated_shadow_spaces.raw_keys(), d.updated_shadow_spaces@)
                        + dealloc_ops(d.deallocs_list.raw_keys(), d.deallocs_list@);
                    assert(full_d =~= done2 + a3_ops + rest);
                    lemma_produced_prefix(ops0, done2, ops@, a3_ops, rest, full_d);
                    let kb = d.updated_account_balances.raw_keys();
                    let mb = d.updated_account_balances@;
                    let i = choose|i: int| fold_stops_at(a1, kb, balance_step(mb), i, self.in_memory_accounts@)
                        && ops@ == ops2 + account_balance_ops(kb.subrange(0, i + 1), mb);
                    assert(ops@.skip(ops0.len() as int) =~= done2 + account_balance_ops(kb.subrange(0, i + 1), mb));
                }
                return Err(CMApplyChangesError::AccountApplyChangesError(
                    CMAccountApplyChangesError::UnableToGetPermanentAccountBody(k),
                ));
            },
            Ok(()) => {},
        }
        let ghost ops3 = ops@;
        let ghost done3 = done2 + a3_ops;
        proof {
            assert(ops3 =~= ops0 + done3);
        }
        match store_contract_balances(&mut self.in_memory_contracts, &self.delta.updated_contract_balances, ops) {
            Err(k) => {
                proof {
                    let rest = global_sum_ops(d.updated_shadow_allocs_sums.raw_keys(), d.updated_shadow_allocs_sums@)
                        + space_ops(d.updated_shadow_spaces.raw_keys(), d.updated_shadow_spaces@)
                        + dealloc_ops(d.deallocs_list.raw_keys(), d.deallocs_list@);
                    assert(full_d =~= done3 + c4_ops + rest);
                    lemma_produced_prefix(ops0, done3, ops@, c4_ops, rest, full_d);
                    let kc = d.updated_contract_balances.raw_keys();
                    let mc = d.updated_contract_balances@;
                    let i = choose|i: int| fold_stops_at(contracts_with_new(con0, d), kc, contract_balance_step(mc), i, contract_map_view(self.in_memory_contracts@))
                        && ops@ == ops3 + contract_balance_ops(kc.subrange(0, i + 1), mc);
                    assert(ops@.skip(ops0.len() as int) =~= done3 + contract_balance_ops(kc.subrange(0, i + 1), mc));
                }
                return Err(CMApplyChangesError::ContractApplyChangesError(
                    CMContractApplyChangesError::UnableToGetPermanentContractBody(k),
                ));
            },
            Ok(()) => {},
        }
        let ghost ops4 = ops@;
        let ghost done4 = done3 + c4_ops;
        let ghost a3v = self.in_memory_accounts@;
        let ghost c4v = contract_map_view(self.in_memory_contracts@);
        proof {
            assert(ops4 =~= ops0 + done4);
            lemma_balances_keep_globals(a1, d.updated_account_balances.raw_keys(), d.updated_account_balances@);
            assert forall|c: Seq<u8>| #[trigger] self.delta.updated_shadow_spaces@.dom().contains(c)
                implies super::apply_spec::space_computable(self.delta.updated_shadow_spaces@[c]@) by {
                assert(d@.updated_shadow_spaces.dom().contains(c));
            }
        }
        spread_deferred_changes(
            &mut self.delta.updated_shadow_spaces,
            &mut self.delta.updated_shadow_allocs_sums,
            &self.in_memory_accounts,
        );
        let ghost d5 = self.delta;
        proof {
            assert(d5@ =~= (CMDeltaView {
                updated_shadow_allocs_sums: d5@.updated_shadow_allocs_sums,
                updated_shadow_spaces: d@.updated_shadow_spaces.map_values(|sp: ShadowSpaceView| materialized(sp)),
                ..d@
            }));
        }
        let ghost full5 = all_apply_ops(d, d5);
        let ghost g6_ops = global_sum_ops(d5.updated_shadow_allocs_sums.raw_keys(), d5.updated_shadow_allocs_sums@);
        let ghost s7_ops = space_ops(d5.updated_shadow_spaces.raw_keys(), d5.updated_shadow_spaces@);
        let ghost r8_ops = dealloc_ops(d5.deallocs_list.raw_keys(), d5.deallocs_list@);
        match store_global_sums(&mut self.in_memory_accounts, &self.delta.updated_shadow_allocs_sums, ops) {
            Err(k) => {
                proof {
                    assert(full5 =~= done4 + g6_ops + (s7_ops + r8_ops));
                    lemma_produced_prefix(ops0, done4, ops@, g6_ops, s7_ops + r8_ops, full5);
                    let kg = d5.updated_shadow_allocs_sums.raw_keys();
                    let mg = d5.updated_shadow_allocs_sums@;
                    let i = choose|i: int| fold_stops_at(a3v, kg, global_sum_step(mg), i, self.in_memory_accounts@)
                        && ops@ == ops4 + global_sum_ops(kg.subrange(0, i + 1), mg);
                    assert(ops@.skip(ops0.len() as int) =~= done4 + global_sum_ops(kg.subrange(0, i + 1), mg));
                }
                return Err(CMApplyChangesError::AccountApplyChangesError(
                    CMAccountApplyChangesError::UnableToGetPermanentAccountBody(k),
                ));
            },
            Ok(()) => {},
        }
        let ghost done6 = done4 + g6_ops;
        proof {
            assert(ops@ =~= ops0 + done6);
        }
        let ghost ops6 = ops@;
        match store_spaces(&mut self.in_memory_contracts, &self.delta.updated_shadow_spaces, ops) {
            Err(k) => {
                proof {
                    assert(full5 =~= done6 + s7_ops + r8_ops);
                    lemma_produced_prefix(ops0, done6, ops@, s7_ops, r8_ops, full5);
                    let ks = d5.updated_shadow_spaces.raw_keys();
                    let ms = d5.updated_shadow_spaces@;
                    let i = choose|i: int| fold_stops_at(c4v, ks, space_step(ms), i, contract_map_view(self.in_memory_contracts@))
                        && ops@ == ops6 + space_ops(ks.subrange(0, i + 1), ms);
                    assert(ops@.skip(ops0.len() as int) =~= done6 + space_ops(ks.subrange(0, i + 1), ms));
                }
                return Err(CMApplyChangesError::ContractApplyChangesError(
                    CMContractApplyChangesError::UnableToGetPermanentContractBody(k),
                ));
            },
            Ok(()) => {},
        }
        let ghost done7 = done6 + s7_ops;
        proof {
            assert(ops@ =~= ops0 + done7);
        }
        let ghost ops7 = ops@;
        let ghost c7v = contract_map_view(self.in_memory_contracts@);
        match store_deallocs(&mut self.in_memory_contracts, &self.delta.deallocs_list, ops) {
            Err(c) => {
                proof {
                    assert(full5 =~= done7 + r8_ops + Seq::empty());
                    lemma_produced_prefix(ops0, done7, ops@, r8_ops, Seq::empty(), full5);
                    let kd = d5.deallocs_list.raw_keys();
                    let md = d5.deallocs_list@;
                    let i = choose|i: int| fold_stops_at(c7v, kd, dealloc_step(md), i, contract_map_view(self.in_memory_contracts@))
                        && ops@ == ops7 + dealloc_ops(kd.subrange(0, i + 1), md);
                    assert(ops@.skip(ops0.len() as int) =~= done7 + dealloc_ops(kd.subrange(0, i + 1), md));
                }
                return Err(CMApplyChangesError::ContractApplyChangesError(
                    CMContractApplyChangesError::UnableToGetPermanentContractBody(c),
                ));
            },
            Ok(()) => {},
        }
        proof {
            assert(ops@.skip(ops0.len() as int) =~= full5);
        }
        Ok(())
    }

    /// Applies all ephemeral changes, as `apply_changes` does, when every deferred proportional change
    /// can be spread in range; otherwise returns `None` and changes nothing.
    pub fn apply_changes_checked(&mut self, ops: &mut Vec<CMDiskOp>) -> (r: Option<Result<(), CMApplyChangesError>>)
        ensures
            r is None <==> !apply_changes_safe(old(self)@.accounts, old(self).delta_exec()),
            r is None ==> *final(self) == *old(self) && final(ops)@ == old(ops)@,
            r matches Some(res) ==> apply_changes_outcome(
                old(self)@.accounts,
                old(self)@.contracts,
                old(self).delta_exec(),
                final(self)@.accounts,
                final(self)@.contracts,
                final(self).delta_exec(),
                final(ops)@.skip(old(ops)@.len() as int),
                res,
            ),
            final(self)@.backup == old(self)@.backup,
    {
        if !changes_in_range(&self.delta, &self.in_memory_accounts) {
            return None;
        }
        Some(self.apply_changes(ops))
    }

    /// An account's global shadow allocs sum with the deferred changes of the ephemeral shadow
    /// spaces taken into account, in sati-satoshis; `None` for an account that is not registered.
    pub open spec fn effective_global_sum(&self, a: Seq<u8>) -> Option<int> {
        match self@.base_global_sum(a) {
            Some(b) => Some(b + deferred_sum(
                self.delta_exec().updated_shadow_spaces@,
                self.delta_exec().updated_shadow_spaces.raw_keys(),
                a,
            )),
            None => None,
        }
    }

    /// The effective global shadow allocs sum of an account can be computed in range.
    pub open spec fn effective_global_sum_computable(&self, a: Seq<u8>) -> bool {
        self@.base_global_sum(a) is Some ==> {
            &&& deferred_sum_computable(
                self.delta_exec().updated_shadow_spaces@,
                self.delta_exec().updated_shadow_spaces.raw_keys(),
                a,
            )
            &&& 0 <= self.effective_global_sum(a)->Some_0 <= u128::MAX
        }
    }

    /// An account's global shadow allocs sum across all contracts, deferred changes included, in
    /// sati-satoshis.
    pub fn get_account_global_shadow_allocs_sum_in_sati_satoshis(&self, account_key: Key) -> (r: Option<u128>)
        requires
            self.effective_global_sum_computable(account_key@),
        ensures
            r == match self.effective_global_sum(account_key@) {
                Some(v) => Some(v as u128),
                None => None::<u128>,
            },
            self.effective_global_sum(account_key@) == self@.global_sum_read(account_key@),
    {
        let n = self.delta.updated_shadow_spaces.len();
        proof {
            let sm = self.delta.updated_shadow_spaces@;
            let ks = self.delta.updated_shadow_spaces.raw_keys();
            let vm = space_map_view(sm);
            self.delta.updated_shadow_spaces.lemma_dom_keys();
            assert forall|i: int| 0 <= i < ks.len() implies sm.dom().contains(#[trigger] ks[i]@) by {
                assert(key_views(ks)[i] == ks[i]@);
                assert(self.delta.updated_shadow_spaces.key_seq().contains(ks[i]@));
            }
            lemma_exec_shares(sm, ks, account_key@);
            assert(self@.delta.updated_shadow_spaces == vm);
            assert forall|k: Seq<u8>| key_views(ks).to_set().contains(k) <==> vm.dom().contains(k) by {
                assert(key_views(ks) == self.delta.updated_shadow_spaces.key_seq());
            }
            assert(key_views(ks).to_set() =~= vm.dom());
            lemma_total_is(vm, key_views(ks), account_key@);
        }
        let base = self.get_account_global_shadow_allocs_sum_in_sati_satoshis_base(account_key)?;
        let ghost spaces = self.delta.updated_shadow_spaces@;
        let ghost keys = self.delta.updated_shadow_spaces.raw_keys();
        let mut total: i128 = 0;
        let mut i: usize = 0;
        while i < n
            invariant
                0 <= i <= n,
                n == keys.len(),
                keys == self.delta.updated_shadow_spaces.raw_keys(),
                spaces == self.delta.updated_shadow_spaces@,
                deferred_sum_computable(spaces, keys, account_key@),
                total == deferred_sum(spaces, keys.subrange(0, i as int), account_key@),
            decreases n - i,
        {
            let sp = self.delta.updated_shadow_spaces.value_at(i);
            proof {
                assert(key_views(keys)[i as int] == keys[i as int]@);
                assert(keys.subrange(0, i + 1).drop_last() =~= keys.subrange(0, i as int));
                assert(keys.subrange(0, i + 1).last() == keys[i as int]);
                lemma_deferred_sum_computable_prefix(spaces, keys, i + 1, account_key@);
            }
            match sp.allocs.get(&account_key) {
                None => {},
                Some(v) => {
                    let (_, share) = apply_deferred_change(*v, sp.shadow_up_all_down_alls, sp.allocs_sum);
                    if share > 0 {
                        if sp.shadow_up_all_down_alls > 0 {
                            total = total + share as i128;
                        } else {
                            total = total - share as i128;
                        }
                    }
                },
            }
            i = i + 1;
        }
        proof {
            assert(keys.subrange(0, n as int) =~= keys);
        }
        if total == 0 {
            return Some(base);
        }
        if total > 0 {
            Some(base + total as u128)
        } else {
            let down: u128 = ((-(total + 1)) as u128) + 1;
            Some(base - down)
        }
    }

    /// An account's global shadow allocs sum across all contracts, deferred changes included, in
    /// whole satoshis (truncated to 64 bits).
    pub fn get_account_global_shadow_allocs_sum_in_satoshis(&self, account_key: Key) -> (r: Option<u64>)
        requires
            self.effective_global_sum_computable(account_key@),
        ensures
            r == match self.effective_global_sum(account_key@) {
                Some(v) => Some(((v as u128) / 100_000_000) as u64),
                None => None::<u64>,
            },
            self.effective_global_sum(account_key@) == self@.global_sum_read(account_key@),
    {
        let v = self.get_account_global_shadow_allocs_sum_in_sati_satoshis(account_key)?;
        Some((v / ONE_SATOSHI_IN_SATI_SATOSHIS) as u64)
    }
}

/// A prefix of a computable running total is computable.
pub proof fn lemma_deferred_sum_computable_prefix(spaces: Map<Seq<u8>, ShadowSpace>, keys: Seq<Key>, i: int, a: Seq<u8>)
    requires
        0 <= i <= keys.len(),
        deferred_sum_computable(spaces, keys, a),
    ensures
        deferred_sum_computable(spaces, keys.subrange(0, i), a),
    decreases keys.len() - i,
{
    if i < keys.len() {
        assert(keys.subrange(0, i + 1).drop_last() =~= keys.subrange(0, i));
        lemma_deferred_sum_computable_prefix(spaces, keys, i + 1, a);
    } else {
        assert(keys.subrange(0, i) =~= keys);
    }
}

} // verus!
