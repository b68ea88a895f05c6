use super::apply::{
    contract_balance_op, contract_balance_step, dealloc_op, dealloc_step, register_contract_op, register_contracts, space_op,
    space_step, store_contract_balances, store_deallocs, store_spaces, CHDiskOp,
};
use super::deltas::{lists_view, spaces_view};
use super::bodies::CHContractBody;
use super::contract_ledger::{ContractLedger, ContractLedgerView};
use super::contract_specs::{contract_apply_failed, contract_apply_ops, contract_apply_outcome};
use super::deltas::{same_contract_delta, CHContractDelta, CHContractDeltaView};
use super::errors::{
    ContractBalanceDownError, ContractBalanceUpError, ContractCoinHolderApplyChangesError,
    ContractCoinHolderRegisterContractError, ShadowAllocAccountError, ShadowAllocDownAllError, ShadowAllocDownError,
    ShadowAllocUpAllError, ShadowAllocUpError, ShadowDeallocAccountError,
};
use super::account_coin_holder::follows_outcome;
use super::apply::contracts_view;
use crate::fold::{fold_stops_at, lemma_produced_prefix, ops_fold};
use crate::keymap::{Key, KeyMap};
use vstd::prelude::*;

verus! {

impl ContractLedger {
    /// Applies the contract changes to the permanent contracts and appends the writes to `ops`, in
    /// order: new contracts, balances, shadow spaces, deallocations (an account already gone from the
    /// stored space is passed over). A contract with no permanent body stops it, with the writes
    /// produced so far a prefix of all of them and the state the one reached at the failing key. The
    /// changes themselves stay.
    pub fn apply_contract_changes(&mut self, ops: &mut Vec<CHDiskOp>) -> (r: Result<(), Key>)
        ensures
            final(self).delta == old(self).delta,
            final(ops)@.len() >= old(ops)@.len(),
            final(ops)@.subrange(0, old(ops)@.len() as int) == old(ops)@,
            match contract_apply_outcome(old(self)@.contracts, old(self).delta) {
                Ok(c) => r is Ok && final(self)@.contracts == c
                    && final(ops)@ == old(ops)@ + contract_apply_ops(old(self).delta),
                Err(e) => r == Err::<(), Key>(e)
                    && final(ops)@.skip(old(ops)@.len() as int).is_prefix_of(contract_apply_ops(old(self).delta))
                    && contract_apply_failed(old(self)@.contracts, old(self).delta, final(self)@.contracts, final(ops)@.skip(old(ops)@.len() as int)),
            },
    {
        let ghost d = self.delta;
        let ghost ops0 = ops@;
        let ghost reg = ops_fold(d.new_contracts_to_register@, register_contract_op());
        let ghost bal = ops_fold(d.updated_contract_balances.raw_keys(), contract_balance_op(d.updated_contract_balances@));
        let ghost sps = ops_fold(d.updated_shadow_spaces.raw_keys(), space_op(d.updated_shadow_spaces@));
        let ghost dls = ops_fold(d.deallocs_list.raw_keys(), dealloc_op(d.deallocs_list@));
        proof {
            assert(contract_apply_ops(d) == reg + bal + sps + dls);
        }
        register_contracts(&mut self.in_memory, &self.delta.new_contracts_to_register, ops);
        let ghost c1 = contracts_view(self.in_memory@);
        let ghost ops1 = ops@;
        match store_contract_balances(&mut self.in_memory, &self.delta.updated_contract_balances, ops) {
            Err(c) => {
                proof {
                    assert(reg + bal + sps + dls =~= reg + bal + (sps + dls));
                    lemma_produced_prefix(ops0, reg, ops@, bal, sps + dls, contract_apply_ops(d));
                    assert(ops@.subrange(0, ops0.len() as int) =~= ops0);
                    let kb = d.updated_contract_balances.raw_keys();
                    let mb = d.updated_contract_balances@;
                    let i = choose|i: int| fold_stops_at(c1, kb, contract_balance_step(mb), i, contracts_view(self.in_memory@))
                        && ops@ == ops1 + ops_fold(kb.subrange(0, i), contract_balance_op(mb));
                    assert(ops@.skip(ops0.len() as int) =~= reg + ops_fold(kb.subrange(0, i), contract_balance_op(mb)));
                }
                return Err(c);
            },
            Ok(()) => {},
        }
        let ghost ops2 = ops@;
        let ghost c2 = contracts_view(self.in_memory@);
        match store_spaces(&mut self.in_memory, &self.delta.updated_shadow_spaces, ops) {
            Err(c) => {
                proof {
                    assert(ops2 =~= ops0 + (reg + bal));
                    assert(reg + bal + sps + dls =~= (reg + bal) + sps + dls);
                    lemma_produced_prefix(ops0, reg + bal, ops@, sps, dls, contract_apply_ops(d));
                    assert(ops@.subrange(0, ops0.len() as int) =~= ops0);
                    let ks = d.updated_shadow_spaces.raw_keys();
                    let ms = d.updated_shadow_spaces@;
                    let i = choose|i: int| fold_stops_at(c2, ks, space_step(spaces_view(ms)), i, contracts_view(self.in_memory@))
                        && ops@ == ops2 + ops_fold(ks.subrange(0, i), space_op(ms));
                    assert(ops@.skip(ops0.len() as int) =~= reg + bal + ops_fold(ks.subrange(0, i), space_op(ms)));
                }
                return Err(c);
            },
            Ok(()) => {},
        }
        let ghost ops3 = ops@;
        let ghost c3 = contracts_view(self.in_memory@);
        match store_deallocs(&mut self.in_memory, &self.delta.deallocs_list, ops) {
            Err(e) => {
                proof {
                    assert(ops3 =~= ops0 + (reg + bal + sps));
                    lemma_produced_prefix(ops0, reg + bal + sps, ops@, dls, Seq::empty(), contract_apply_ops(d));
                    assert(ops@.subrange(0, ops0.len() as int) =~= ops0);
                    let kd = d.deallocs_list.raw_keys();
                    let md = d.deallocs_list@;
                    let lv = lists_view(md);
                    let fc = contracts_view(self.in_memory@);
                    let i = choose|i: int| fold_stops_at(c3, kd, dealloc_step(lv), i, fc)
                        && ops@ == ops3 + ops_fold(kd.subrange(0, i), dealloc_op(md));
                    assert(ops@.skip(ops0.len() as int) =~= reg + bal + sps + ops_fold(kd.subrange(0, i), dealloc_op(md)));
                }
                return Err(e);
            },
            Ok(()) => {},
        }
        proof {
            assert(ops@ =~= ops0 + contract_apply_ops(d));
            assert(ops@.subrange(0, ops0.len() as int) =~= ops0);
        }
        Ok(())
    }
}

/// The abstract state of a contract coin holder.
#[verifier::ext_equal]
pub struct ContractCoinHolderView {
    /// Permanent contract bodies and their ephemeral changes.
    pub ledger: ContractLedgerView,
    /// Backup of the ephemeral changes, for rollback.
    pub backup: CHContractDeltaView,
}

impl ContractCoinHolderView {
    /// The state with the given contract part.
    pub open spec fn with_ledger(self, ledger: ContractLedgerView) -> Self {
        ContractCoinHolderView { ledger, ..self }
    }

    /// Outcome of increasing a contract's balance.
    pub open spec fn contract_balance_up(self, c: Key, up: u64) -> Result<Self, ContractBalanceUpError> {
        match self.ledger.balance(c@) {
            None => Err(ContractBalanceUpError::UnableToGetContractBalance(c)),
            Some(b) => Ok(self.with_ledger(self.ledger.with_balance(c@, (b + up) as u64))),
        }
    }

    /// Outcome of decreasing a contract's balance.
    pub open spec fn contract_balance_down(self, c: Key, down: u64) -> Result<Self, ContractBalanceDownError> {
        match self.ledger.balance(c@) {
            None => Err(ContractBalanceDownError::UnableToGetContractBalance(c)),
            Some(b) => if down > b {
                Err(ContractBalanceDownError::ContractBalanceWouldGoBelowZero(c, b, down))
            } else {
                Ok(self.with_ledger(self.ledger.with_balance(c@, (b - down) as u64)))
            },
        }
    }
}

/// Keeps contract balances and shadow spaces, with ephemeral changes on top.
pub struct ContractCoinHolder {
    ledger: ContractLedger,
    delta_backup: CHContractDelta,
}

impl View for ContractCoinHolder {
    type V = ContractCoinHolderView;

    closed spec fn view(&self) -> ContractCoinHolderView {
        ContractCoinHolderView { ledger: self.ledger@, backup: self.delta_backup@ }
    }
}

/// The result of a ledger operation lifted to the holder: the backup stays.
pub open spec fn lifted<E>(old_h: ContractCoinHolderView, new_h: ContractCoinHolderView, r: Result<(), E>, outcome: Result<ContractLedgerView, E>) -> bool {
    &&& new_h.backup == old_h.backup
    &&& match outcome {
        Ok(l) => r is Ok && new_h.ledger == l,
        Err(e) => r == Err::<(), E>(e) && new_h.ledger == old_h.ledger,
    }
}

impl ContractCoinHolder {
    /// The ephemeral changes as held, with their orders.
    pub closed spec fn delta_exec(&self) -> CHContractDelta {
        self.ledger.delta
    }

    /// The held changes are those of the view.
    pub proof fn lemma_delta_exec(&self)
        ensures
            self.delta_exec()@ == self@.ledger.delta,
    {
    }

    /// The order of the allocations of a contract's current shadow space.
    pub closed spec fn space_order(&self, c: Seq<u8>) -> Seq<Key> {
        self.ledger.space_order(c)
    }

    /// A contract coin holder over the given permanent bodies, with no ephemeral change.
    pub fn from_bodies(in_memory: KeyMap<CHContractBody>) -> (r: Self)
        ensures
            r@ == (ContractCoinHolderView {
                ledger: ContractLedgerView { contracts: contracts_view(in_memory@), delta: CHContractDeltaView::empty() },
                backup: CHContractDeltaView::empty(),
            }),
    {
        ContractCoinHolder { ledger: ContractLedger { in_memory, delta: CHContractDelta::new() }, delta_backup: CHContractDelta::new() }
    }

    /// Prepares the holder before each execution: backs up the delta.
    pub fn pre_execution(&mut self)
        ensures
            final(self)@ == (ContractCoinHolderView { backup: old(self)@.ledger.delta, ..old(self)@ }),
    {
        self.delta_backup = self.ledger.delta.duplicate();
    }

    /// Whether a contract is permanently registered (ephemeral registrations are not counted).
    pub fn is_contract_registered(&self, contract_id: Key) -> (r: bool)
        ensures
            r == self@.ledger.contracts.dom().contains(contract_id@),
    {
        self.ledger.in_memory.contains_key(&contract_id)
    }

    /// A contract's balance in satoshis.
    pub fn get_contract_balance(&self, contract_id: Key) -> (r: Option<u64>)
        ensures
            r == self@.ledger.balance(contract_id@),
    {
        self.ledger.balance(contract_id)
    }

    /// A contract's shadow allocs sum in satoshis.
    pub fn get_contract_allocs_sum(&self, contract_id: Key) -> (r: Option<u64>)
        ensures
            r == match self@.ledger.space(contract_id@) {
                Some(sp) => Some(sp.allocs_sum),
                None => None::<u64>,
            },
    {
        match self.ledger.space(contract_id) {
            Some(sp) => Some(sp.allocs_sum()),
            None => None,
        }
    }

    /// The number of allocations of a contract's shadow space.
    pub fn get_contract_num_allocs(&self, contract_id: Key) -> (r: Option<u64>)
        ensures
            r == match self@.ledger.space(contract_id@) {
                Some(sp) => Some(sp.allocs.dom().len() as u64),
                None => None::<u64>,
            },
            self@.ledger.space(contract_id@) matches Some(sp) ==> sp.allocs.dom().finite() && sp.allocs.dom().len() <= u64::MAX,
    {
        match self.ledger.space(contract_id) {
            Some(sp) => Some(sp.allocs_len() as u64),
            None => None,
        }
    }

    /// An account's allocation in a contract's shadow space, in sati-satoshis.
    pub fn get_account_shadow_alloc_value_in_sati_satoshis(&self, contract_id: Key, account_key: Key) -> (r: Option<u128>)
        ensures
            r == self@.ledger.alloc_value(contract_id@, account_key@),
    {
        self.ledger.alloc_value(contract_id, account_key)
    }

    /// An account's allocation in a contract's shadow space, in whole satoshis, rounded down.
    pub fn get_account_shadow_alloc_value_in_satoshis(&self, contract_id: Key, account_key: Key) -> (r: Option<u64>)
        ensures
            r == match self@.ledger.alloc_value(contract_id@, account_key@) {
                Some(v) => Some((v / 100_000_000) as u64),
                None => None::<u64>,
            },
    {
        match self.ledger.alloc_value(contract_id, account_key) {
            Some(v) => Some((v / 100_000_000) as u64),
            None => None,
        }
    }

    /// Registers a contract, to be saved by `apply_changes`.
    pub fn register_contract(&mut self, contract_id: Key) -> (r: Result<(), ContractCoinHolderRegisterContractError>)
        ensures
            lifted(old(self)@, final(self)@, r, old(self)@.ledger.register_contract(contract_id)),
    {
        self.ledger.register_contract(contract_id)
    }

    /// Allocates an account, with a zero value, in a contract's shadow space; the contract's list of
    /// new allocations becomes that account alone.
    pub fn shadow_alloc_account(&mut self, contract_id: Key, account_key: Key) -> (r: Result<(), ShadowAllocAccountError>)
        ensures
            lifted(old(self)@, final(self)@, r, old(self)@.ledger.shadow_alloc_account(contract_id, account_key, false)),
    {
        self.ledger.shadow_alloc_account(contract_id, account_key, false)
    }

    /// Deallocates an account, whose allocation must be zero, from a contract's shadow space; the
    /// contract's list of deallocations must already exist.
    pub fn shadow_dealloc_account(&mut self, contract_id: Key, account_key: Key) -> (r: Result<(), ShadowDeallocAccountError>)
        ensures
            lifted(old(self)@, final(self)@, r, old(self)@.ledger.shadow_dealloc_account(contract_id, account_key, false)),
    {
        self.ledger.shadow_dealloc_account(contract_id, account_key, false)
    }

    /// Increases a contract's balance, to be saved by `apply_changes`.
    pub fn contract_balance_up(&mut self, contract_id: Key, up_value_in_satoshis: u64) -> (r: Result<(), ContractBalanceUpError>)
        requires
            old(self)@.ledger.balance(contract_id@) matches Some(b) ==> b + up_value_in_satoshis <= u64::MAX,
        ensures
            follows_outcome(old(self)@, final(self)@, r, old(self)@.contract_balance_up(contract_id, up_value_in_satoshis)),
    {
        let b = match self.ledger.balance(contract_id) {
            Some(b) => b,
            None => {
                return Err(ContractBalanceUpError::UnableToGetContractBalance(contract_id));
            },
        };
        self.ledger.set_balance(contract_id, b + up_value_in_satoshis);
        Ok(())
    }

    /// Decreases a contract's balance, to be saved by `apply_changes`.
    pub fn contract_balance_down(&mut self, contract_id: Key, down_value_in_satoshis: u64) -> (r: Result<(), ContractBalanceDownError>)
        ensures
            follows_outcome(old(self)@, final(self)@, r, old(self)@.contract_balance_down(contract_id, down_value_in_satoshis)),
    {
        let b = match self.ledger.balance(contract_id) {
            Some(b) => b,
            None => {
                return Err(ContractBalanceDownError::UnableToGetContractBalance(contract_id));
            },
        };
        if down_value_in_satoshis > b {
            return Err(ContractBalanceDownError::ContractBalanceWouldGoBelowZero(contract_id, b, down_value_in_satoshis));
        }
        self.ledger.set_balance(contract_id, b - down_value_in_satoshis);
        Ok(())
    }

    /// Increases an account's allocation in a contract's shadow space, to be saved by `apply_changes`.
    pub fn shadow_up(&mut self, contract_id: Key, account_key: Key, up_value_in_satoshis: u64) -> (r: Result<(), ShadowAllocUpError>)
        requires
            old(self)@.ledger.shadow_up_safe(contract_id, account_key, up_value_in_satoshis),
        ensures
            final(self)@ == old(self)@.with_ledger(old(self)@.ledger.shadow_up(contract_id, account_key, up_value_in_satoshis).0),
            r == old(self)@.ledger.shadow_up(contract_id, account_key, up_value_in_satoshis).1,
    {
        self.ledger.shadow_up(contract_id, account_key, up_value_in_satoshis)
    }

    /// Decreases an account's allocation in a contract's shadow space, to be saved by `apply_changes`.
    pub fn shadow_down(&mut self, contract_id: Key, account_key: Key, down_value_in_satoshis: u64) -> (r: Result<(), ShadowAllocDownError>)
        requires
            old(self)@.ledger.shadow_down_safe(contract_id, account_key, down_value_in_satoshis),
        ensures
            final(self)@ == old(self)@.with_ledger(old(self)@.ledger.shadow_down(contract_id, account_key, down_value_in_satoshis).0),
            r == old(self)@.ledger.shadow_down(contract_id, account_key, down_value_in_satoshis).1,
    {
        self.ledger.shadow_down(contract_id, account_key, down_value_in_satoshis)
    }

    /// Proportionally increases every allocation of a contract's shadow space, to be saved by
    /// `apply_changes`; returns the number of allocations that moved.
    pub fn shadow_up_all(&mut self, contract_id: Key, up_value_in_satoshis: u64) -> (r: Result<u64, ShadowAllocUpAllError>)
        requires
            old(self)@.ledger.shadow_up_all_safe(contract_id, up_value_in_satoshis),
        ensures
            final(self)@ == old(self)@.with_ledger(old(self)@.ledger.shadow_up_all(contract_id, up_value_in_satoshis).0),
            r == old(self)@.ledger.shadow_up_all(contract_id, up_value_in_satoshis).1,
    {
        match self.ledger.shadow_up_all(contract_id, up_value_in_satoshis) {
            Ok(list) => Ok(list.len() as u64),
            Err(e) => Err(e),
        }
    }

    /// Proportionally decreases every allocation of a contract's shadow space, to be saved by
    /// `apply_changes`; returns the number of allocations that moved.
    pub fn shadow_down_all(&mut self, contract_id: Key, down_value_in_satoshis: u64) -> (r: Result<u64, ShadowAllocDownAllError>)
        requires
            old(self)@.ledger.shadow_down_all_safe(contract_id, down_value_in_satoshis),
        ensures
            final(self)@ == old(self)@.with_ledger(old(self)@.ledger.shadow_down_all(contract_id, down_value_in_satoshis).0),
            r == old(self)@.ledger.shadow_down_all(contract_id, down_value_in_satoshis).1,
    {
        match self.ledger.shadow_down_all(contract_id, down_value_in_satoshis) {
            Ok(list) => Ok(list.len() as u64),
            Err(e) => Err(e),
        }
    }

    /// Reverts the ephemeral changes of the last execution.
    pub fn rollback_last(&mut self)
        ensures
            final(self)@ == (ContractCoinHolderView {
                ledger: ContractLedgerView { delta: old(self)@.backup, ..old(self)@.ledger },
                ..old(self)@
            }),
    {
        self.ledger.delta = self.delta_backup.duplicate();
    }

    /// Clears the ephemeral changes and their backup.
    pub fn flush_delta(&mut self)
        ensures
            final(self)@ == (ContractCoinHolderView {
                ledger: ContractLedgerView { delta: CHContractDeltaView::empty(), ..old(self)@.ledger },
                backup: CHContractDeltaView::empty(),
            }),
    {
        self.ledger.delta.flush();
        self.delta_backup.flush();
    }

    /// Applies the ephemeral changes to the permanent contracts and appends the writes to `ops`, in
    /// order: new contracts, balances, shadow spaces, deallocations; then clears the changes and their
    /// backup. A deallocated account already gone from the stored space is passed over. A contract
    /// with no permanent body stops it, with the writes produced so far a prefix of all of them and
    /// the state the one reached at the failing key.
    pub fn apply_changes(&mut self, ops: &mut Vec<CHDiskOp>) -> (r: Result<(), ContractCoinHolderApplyChangesError>)
        ensures
            final(ops)@.len() >= old(ops)@.len(),
            final(ops)@.subrange(0, old(ops)@.len() as int) == old(ops)@,
            match contract_apply_outcome(old(self)@.ledger.contracts, old(self).delta_exec()) {
                Ok(c) => r is Ok
                    && final(self)@ == (ContractCoinHolderView {
                        ledger: ContractLedgerView { contracts: c, delta: CHContractDeltaView::empty() },
                        backup: CHContractDeltaView::empty(),
                    })
                    && final(ops)@ == old(ops)@ + contract_apply_ops(old(self).delta_exec()),
                Err(c) => r == Err::<(), ContractCoinHolderApplyChangesError>(ContractCoinHolderApplyChangesError::UnableToGetContractBody(c))
                    && final(self)@.ledger.delta == old(self)@.ledger.delta && final(self)@.backup == old(self)@.backup
                    && final(ops)@.skip(old(ops)@.len() as int).is_prefix_of(contract_apply_ops(old(self).delta_exec()))
                    && contract_apply_failed(old(self)@.ledger.contracts, old(self).delta_exec(), final(self)@.ledger.contracts,
                        final(ops)@.skip(old(ops)@.len() as int)),
            },
    {
        match self.ledger.apply_contract_changes(ops) {
            Err(c) => {
                return Err(ContractCoinHolderApplyChangesError::UnableToGetContractBody(c));
            },
            Ok(()) => {},
        }
        self.flush_delta();
        Ok(())
    }
}

} // verus!
