use super::bodies::{CHContractBody, CHContractBodyView, ShadowSpace, ShadowSpaceView};
use super::deltas::{CHContractDelta, CHContractDeltaView};
use super::apply::contracts_view;
use crate::keymap::{Key, KeyMap};
use vstd::prelude::*;

verus! {

/// The contract side of a coin holder: permanent contract bodies and their ephemeral changes.
#[verifier::ext_equal]
pub struct ContractLedgerView {
    /// Permanent contract bodies.
    pub contracts: Map<Seq<u8>, CHContractBodyView>,
    /// Ephemeral changes.
    pub delta: CHContractDeltaView,
}

impl ContractLedgerView {
    /// A contract's balance: the ephemeral one if there is one, else the permanent one.
    pub open spec fn balance(self, c: Seq<u8>) -> Option<u64> {
        if self.delta.updated_contract_balances.dom().contains(c) {
            Some(self.delta.updated_contract_balances[c])
        } else if self.contracts.dom().contains(c) {
            Some(self.contracts[c].balance)
        } else {
            None
        }
    }

    /// A contract's current shadow space: the ephemeral one if there is one, else the permanent one.
    pub open spec fn space(self, c: Seq<u8>) -> Option<ShadowSpaceView> {
        if self.delta.updated_shadow_spaces.dom().contains(c) {
            Some(self.delta.updated_shadow_spaces[c])
        } else if self.contracts.dom().contains(c) {
            Some(self.contracts[c].shadow_space)
        } else {
            None
        }
    }

    /// An account's allocation in a contract's shadow space, none once it was deallocated in this
    /// execution.
    pub open spec fn alloc_value(self, c: Seq<u8>, a: Seq<u8>) -> Option<u128> {
        if CHContractDeltaView::listed(self.delta.deallocs_list, c, a) {
            None
        } else {
            match self.space(c) {
                Some(sp) => if sp.allocs.dom().contains(a) {
                    Some(sp.allocs[a])
                } else {
                    None
                },
                None => None,
            }
        }
    }

    /// The state with a contract's ephemeral balance set.
    pub open spec fn with_balance(self, c: Seq<u8>, b: u64) -> Self {
        ContractLedgerView {
            delta: CHContractDeltaView { updated_contract_balances: self.delta.updated_contract_balances.insert(c, b), ..self.delta },
            ..self
        }
    }

    /// The state with a contract's ephemeral shadow space set.
    pub open spec fn with_space(self, c: Seq<u8>, sp: ShadowSpaceView) -> Self {
        ContractLedgerView {
            delta: CHContractDeltaView { updated_shadow_spaces: self.delta.updated_shadow_spaces.insert(c, sp), ..self.delta },
            ..self
        }
    }

    /// The state with a contract's current shadow space held ephemerally.
    pub open spec fn ensure_space(self, c: Seq<u8>) -> Self {
        if !self.delta.updated_shadow_spaces.dom().contains(c) && self.contracts.dom().contains(c) {
            self.with_space(c, self.contracts[c].shadow_space)
        } else {
            self
        }
    }

    /// The state with a contract registered ephemerally.
    pub open spec fn with_new_contract(self, c: Key) -> Self {
        ContractLedgerView {
            delta: CHContractDeltaView { new_contracts_to_register: self.delta.new_contracts_to_register.push(c), ..self.delta },
            ..self
        }
    }
}

/// Permanent contract bodies with their ephemeral changes.
pub struct ContractLedger {
    pub in_memory: KeyMap<CHContractBody>,
    pub delta: CHContractDelta,
}

impl View for ContractLedger {
    type V = ContractLedgerView;

    open spec fn view(&self) -> ContractLedgerView {
        ContractLedgerView { contracts: contracts_view(self.in_memory@), delta: self.delta@ }
    }
}

impl ContractLedger {
    /// The order of the allocations of a contract's current shadow space.
    pub open spec fn space_order(&self, c: Seq<u8>) -> Seq<Key> {
        if self.delta.updated_shadow_spaces@.dom().contains(c) {
            self.delta.updated_shadow_spaces@[c].alloc_keys()
        } else {
            self.in_memory@[c].alloc_keys()
        }
    }

    /// A contract's balance in satoshis.
    pub fn balance(&self, contract_id: Key) -> (r: Option<u64>)
        ensures
            r == self@.balance(contract_id@),
    {
        if let Some(v) = self.delta.updated_contract_balances.get(&contract_id) {
            return Some(*v);
        }
        match self.in_memory.get(&contract_id) {
            Some(b) => Some(b.balance()),
            None => None,
        }
    }

    /// A contract's current shadow space.
    pub fn space(&self, contract_id: Key) -> (r: Option<&ShadowSpace>)
        ensures
            match r {
                Some(sp) => self@.space(contract_id@) == Some(sp@) && sp.alloc_keys() == self.space_order(contract_id@),
                None => self@.space(contract_id@) is None,
            },
    {
        if let Some(sp) = self.delta.updated_shadow_spaces.get(&contract_id) {
            return Some(sp);
        }
        match self.in_memory.get(&contract_id) {
            Some(b) => Some(b.shadow_space()),
            None => None,
        }
    }

    /// An account's allocation in a contract's shadow space, in sati-satoshis.
    pub fn alloc_value(&self, contract_id: Key, account_key: Key) -> (r: Option<u128>)
        ensures
            r == self@.alloc_value(contract_id@, account_key@),
    {
        if self.delta.is_just_deallocated(&contract_id, &account_key) {
            return None;
        }
        match self.space(contract_id) {
            Some(sp) => sp.alloc_value(&account_key),
            None => None,
        }
    }

    /// Holds a contract's current shadow space ephemerally; returns whether the contract has one.
    pub fn ensure_space(&mut self, contract_id: Key) -> (r: bool)
        ensures
            r == old(self)@.space(contract_id@) is Some,
            final(self)@ == old(self)@.ensure_space(contract_id@),
            r ==> final(self).delta.updated_shadow_spaces@.dom().contains(contract_id@),
    {
        if self.delta.updated_shadow_spaces.contains_key(&contract_id) {
            return true;
        }
        match self.in_memory.get(&contract_id) {
            Some(b) => {
                let sp = b.shadow_space().duplicate();
                let ghost before = self.delta.updated_shadow_spaces@;
                let ghost spv = sp@;
                self.delta.updated_shadow_spaces.insert(contract_id, sp);
                proof {
                    assert(super::deltas::spaces_view(self.delta.updated_shadow_spaces@)
                        =~= super::deltas::spaces_view(before).insert(contract_id@, spv));
                }
                assert(self@ =~= old(self)@.ensure_space(contract_id@));
                true
            },
            None => false,
        }
    }

    /// Takes a contract's ephemeral shadow space out, leaving an empty one in its place.
    pub fn take_space(&mut self, contract_id: Key) -> (r: ShadowSpace)
        requires
            old(self).delta.updated_shadow_spaces@.dom().contains(contract_id@),
        ensures
            r@ == old(self)@.delta.updated_shadow_spaces[contract_id@],
            final(self)@ == old(self)@.with_space(contract_id@, ShadowSpaceView::empty()),
    {
        let ghost before = self.delta.updated_shadow_spaces@;
        let mut sp = ShadowSpace::fresh_new();
        self.delta.updated_shadow_spaces.swap_value(&contract_id, &mut sp);
        proof {
            assert(super::deltas::spaces_view(self.delta.updated_shadow_spaces@)
                =~= super::deltas::spaces_view(before).insert(contract_id@, ShadowSpaceView::empty()));
        }
        assert(self@ =~= old(self)@.with_space(contract_id@, ShadowSpaceView::empty()));
        sp
    }

    /// Replaces a contract's ephemeral shadow space.
    pub fn set_space(&mut self, contract_id: Key, sp: ShadowSpace)
        ensures
            final(self)@ == old(self)@.with_space(contract_id@, sp@),
    {
        let ghost before = self.delta.updated_shadow_spaces@;
        let ghost spv = sp@;
        self.delta.updated_shadow_spaces.insert(contract_id, sp);
        proof {
            assert(super::deltas::spaces_view(self.delta.updated_shadow_spaces@)
                =~= super::deltas::spaces_view(before).insert(contract_id@, spv));
        }
        assert(self@ =~= old(self)@.with_space(contract_id@, spv));
    }

    /// Sets a contract's ephemeral balance.
    pub fn set_balance(&mut self, contract_id: Key, balance: u64)
        ensures
            final(self)@ == old(self)@.with_balance(contract_id@, balance),
    {
        self.delta.updated_contract_balances.insert(contract_id, balance);
        assert(self@ =~= old(self)@.with_balance(contract_id@, balance));
    }

    /// Registers a contract ephemerally.
    pub fn push_new_contract(&mut self, contract_id: Key)
        ensures
            final(self)@ == old(self)@.with_new_contract(contract_id),
    {
        self.delta.new_contracts_to_register.push(contract_id);
        assert(self@ =~= old(self)@.with_new_contract(contract_id));
    }

    /// Sets a contract's list of new allocations.
    pub fn set_allocs_list(&mut self, contract_id: Key, list: Vec<Key>)
        ensures
            final(self)@ == (ContractLedgerView {
                delta: CHContractDeltaView { allocs_list: old(self)@.delta.allocs_list.insert(contract_id@, list@), ..old(self)@.delta },
                ..old(self)@
            }),
    {
        let ghost before = self.delta.allocs_list@;
        let ghost lv = list@;
        self.delta.allocs_list.insert(contract_id, list);
        proof {
            assert(super::deltas::lists_view(self.delta.allocs_list@) =~= super::deltas::lists_view(before).insert(contract_id@, lv));
        }
        assert(self@.delta =~= CHContractDeltaView { allocs_list: old(self)@.delta.allocs_list.insert(contract_id@, lv), ..old(self)@.delta });
    }

    /// Appends an account to a contract's list of new allocations, creating the list if needed.
    pub fn append_alloc(&mut self, contract_id: Key, account_key: Key)
        ensures
            final(self)@ == (ContractLedgerView {
                delta: CHContractDeltaView {
                    allocs_list: CHContractDeltaView::appended(old(self)@.delta.allocs_list, contract_id@, account_key),
                    ..old(self)@.delta
                },
                ..old(self)@
            }),
    {
        let ghost before = self.delta.allocs_list@;
        let mut list: Vec<Key> = Vec::new();
        if self.delta.allocs_list.swap_value(&contract_id, &mut list) {
            let ghost lv = list@;
            list.push(account_key);
            self.delta.allocs_list.swap_value(&contract_id, &mut list);
            proof {
                assert(super::deltas::lists_view(self.delta.allocs_list@)
                    =~= CHContractDeltaView::appended(super::deltas::lists_view(before), contract_id@, account_key));
            }
        } else {
            list.push(account_key);
            self.delta.allocs_list.insert(contract_id, list);
            proof {
                assert(super::deltas::lists_view(self.delta.allocs_list@)
                    =~= CHContractDeltaView::appended(super::deltas::lists_view(before), contract_id@, account_key));
            }
        }
        assert(self@.delta =~= CHContractDeltaView {
            allocs_list: CHContractDeltaView::appended(old(self)@.delta.allocs_list, contract_id@, account_key),
            ..old(self)@.delta
        });
    }

    /// Appends an account to a contract's existing list of deallocations; returns whether the list
    /// exists.
    pub fn append_dealloc(&mut self, contract_id: Key, account_key: Key) -> (r: bool)
        ensures
            r == old(self)@.delta.deallocs_list.dom().contains(contract_id@),
            r ==> final(self)@ == (ContractLedgerView {
                delta: CHContractDeltaView {
                    deallocs_list: CHContractDeltaView::appended(old(self)@.delta.deallocs_list, contract_id@, account_key),
                    ..old(self)@.delta
                },
                ..old(self)@
            }),
            !r ==> final(self)@ == old(self)@,
    {
        let ghost before = self.delta.deallocs_list@;
        let mut list: Vec<Key> = Vec::new();
        if self.delta.deallocs_list.swap_value(&contract_id, &mut list) {
            list.push(account_key);
            self.delta.deallocs_list.swap_value(&contract_id, &mut list);
            proof {
                assert(super::deltas::lists_view(self.delta.deallocs_list@)
                    =~= CHContractDeltaView::appended(super::deltas::lists_view(before), contract_id@, account_key));
            }
            assert(self@.delta =~= CHContractDeltaView {
                deallocs_list: CHContractDeltaView::appended(old(self)@.delta.deallocs_list, contract_id@, account_key),
                ..old(self)@.delta
            });
            true
        } else {
            false
        }
    }

    /// Appends an account to a contract's list of deallocations, creating the list if needed.
    pub fn append_dealloc_or_create(&mut self, contract_id: Key, account_key: Key)
        ensures
            final(self)@ == (ContractLedgerView {
                delta: CHContractDeltaView {
                    deallocs_list: CHContractDeltaView::appended(old(self)@.delta.deallocs_list, contract_id@, account_key),
                    ..old(self)@.delta
                },
                ..old(self)@
            }),
    {
        if !self.append_dealloc(contract_id, account_key) {
            let ghost before = self.delta.deallocs_list@;
            let mut list: Vec<Key> = Vec::new();
            list.push(account_key);
            self.delta.deallocs_list.insert(contract_id, list);
            proof {
                assert(super::deltas::lists_view(self.delta.deallocs_list@)
                    =~= CHContractDeltaView::appended(super::deltas::lists_view(before), contract_id@, account_key));
            }
            assert(self@.delta =~= CHContractDeltaView {
                deallocs_list: CHContractDeltaView::appended(old(self)@.delta.deallocs_list, contract_id@, account_key),
                ..old(self)@.delta
            });
        }
    }
}

} // verus!
