use super::bodies::{ShadowSpace, ShadowSpaceView};
use crate::keymap::{copy_keys, key_views, lemma_push_contains, Key, KeyMap};
use vstd::prelude::*;

verus! {

/// The abstract content of the ephemeral account changes of a coin holder.
#[verifier::ext_equal]
pub struct AccountDeltaView {
    /// Accounts to register, in order.
    pub new_accounts_to_register: Seq<Key>,
    /// Updated account balances.
    pub updated_account_balances: Map<Seq<u8>, u64>,
    /// Updated shadow allocs sums of accounts.
    pub updated_shadow_allocs_sums: Map<Seq<u8>, u128>,
}

impl AccountDeltaView {
    /// No ephemeral change.
    pub open spec fn empty() -> Self {
        AccountDeltaView {
            new_accounts_to_register: Seq::empty(),
            updated_account_balances: Map::empty(),
            updated_shadow_allocs_sums: Map::empty(),
        }
    }

    /// Whether an account is among the accounts to register.
    pub open spec fn is_new(self, k: Seq<u8>) -> bool {
        key_views(self.new_accounts_to_register).contains(k)
    }
}

/// Ephemeral account changes of a coin holder, to be applied later.
pub struct AccountDelta {
    /// Accounts to register, in order.
    pub new_accounts_to_register: Vec<Key>,
    /// Updated account balances.
    pub updated_account_balances: KeyMap<u64>,
    /// Updated shadow allocs sums of accounts.
    pub updated_shadow_allocs_sums: KeyMap<u128>,
}

impl View for AccountDelta {
    type V = AccountDeltaView;

    open spec fn view(&self) -> AccountDeltaView {
        AccountDeltaView {
            new_accounts_to_register: self.new_accounts_to_register@,
            updated_account_balances: self.updated_account_balances@,
            updated_shadow_allocs_sums: self.updated_shadow_allocs_sums@,
        }
    }
}

/// Two account deltas hold the same changes in the same orders.
pub open spec fn same_account_delta(a: AccountDelta, b: AccountDelta) -> bool {
    &&& a@ == b@
    &&& a.updated_account_balances.raw_keys() == b.updated_account_balances.raw_keys()
    &&& a.updated_shadow_allocs_sums.raw_keys() == b.updated_shadow_allocs_sums.raw_keys()
}

impl AccountDelta {
    /// No ephemeral change.
    pub fn new() -> (r: Self)
        ensures
            r@ == AccountDeltaView::empty(),
    {
        let r = AccountDelta {
            new_accounts_to_register: Vec::new(),
            updated_account_balances: KeyMap::new(),
            updated_shadow_allocs_sums: KeyMap::new(),
        };
        assert(r@ =~= AccountDeltaView::empty());
        r
    }

    /// Clears all changes.
    pub fn flush(&mut self)
        ensures
            final(self)@ == AccountDeltaView::empty(),
    {
        self.new_accounts_to_register.clear();
        self.updated_account_balances.clear();
        self.updated_shadow_allocs_sums.clear();
        assert(self@ =~= AccountDeltaView::empty());
    }

    /// A copy of the changes, in the same orders.
    pub fn duplicate(&self) -> (r: Self)
        ensures
            same_account_delta(r, *self),
    {
        AccountDelta {
            new_accounts_to_register: copy_keys(&self.new_accounts_to_register),
            updated_account_balances: self.updated_account_balances.copy(),
            updated_shadow_allocs_sums: self.updated_shadow_allocs_sums.copy(),
        }
    }

    /// Whether an account is among the accounts to register.
    pub fn is_new(&self, account_key: &Key) -> (r: bool)
        ensures
            r == self@.is_new(account_key@),
    {
        crate::keymap::keys_contain(&self.new_accounts_to_register, account_key)
    }
}

/// The abstract content of the ephemeral contract changes of a coin holder.
#[verifier::ext_equal]
pub struct CHContractDeltaView {
    /// Contracts to register, in order.
    pub new_contracts_to_register: Seq<Key>,
    /// Accounts newly allocated in each contract's shadow space.
    pub allocs_list: Map<Seq<u8>, Seq<Key>>,
    /// Accounts deallocated from each contract's shadow space.
    pub deallocs_list: Map<Seq<u8>, Seq<Key>>,
    /// Updated contract balances.
    pub updated_contract_balances: Map<Seq<u8>, u64>,
    /// Updated shadow spaces.
    pub updated_shadow_spaces: Map<Seq<u8>, ShadowSpaceView>,
}

impl CHContractDeltaView {
    /// No ephemeral change.
    pub open spec fn empty() -> Self {
        CHContractDeltaView {
            new_contracts_to_register: Seq::empty(),
            allocs_list: Map::empty(),
            deallocs_list: Map::empty(),
            updated_contract_balances: Map::empty(),
            updated_shadow_spaces: Map::empty(),
        }
    }

    /// Whether a contract is among the contracts to register.
    pub open spec fn is_new(self, c: Seq<u8>) -> bool {
        key_views(self.new_contracts_to_register).contains(c)
    }

    /// Whether a contract's list holds an account.
    pub open spec fn listed(list: Map<Seq<u8>, Seq<Key>>, c: Seq<u8>, a: Seq<u8>) -> bool {
        list.dom().contains(c) && key_views(list[c]).contains(a)
    }

    /// A contract's list with one more account, the list being created if needed.
    pub open spec fn appended(list: Map<Seq<u8>, Seq<Key>>, c: Seq<u8>, a: Key) -> Map<Seq<u8>, Seq<Key>> {
        list.insert(c, if list.dom().contains(c) { list[c].push(a) } else { seq![a] })
    }
}

/// Ephemeral contract changes of a coin holder, to be applied later.
pub struct CHContractDelta {
    /// Contracts to register, in order.
    pub new_contracts_to_register: Vec<Key>,
    /// Accounts newly allocated in each contract's shadow space.
    pub allocs_list: KeyMap<Vec<Key>>,
    /// Accounts deallocated from each contract's shadow space.
    pub deallocs_list: KeyMap<Vec<Key>>,
    /// Updated contract balances.
    pub updated_contract_balances: KeyMap<u64>,
    /// Updated shadow spaces.
    pub updated_shadow_spaces: KeyMap<ShadowSpace>,
}

/// The views of a map of key lists.
pub open spec fn lists_view(m: Map<Seq<u8>, Vec<Key>>) -> Map<Seq<u8>, Seq<Key>> {
    m.map_values(|v: Vec<Key>| v@)
}

/// The views of a map of shadow spaces.
pub open spec fn spaces_view(m: Map<Seq<u8>, ShadowSpace>) -> Map<Seq<u8>, ShadowSpaceView> {
    m.map_values(|v: ShadowSpace| v@)
}

impl View for CHContractDelta {
    type V = CHContractDeltaView;

    open spec fn view(&self) -> CHContractDeltaView {
        CHContractDeltaView {
            new_contracts_to_register: self.new_contracts_to_register@,
            allocs_list: lists_view(self.allocs_list@),
            deallocs_list: lists_view(self.deallocs_list@),
            updated_contract_balances: self.updated_contract_balances@,
            updated_shadow_spaces: spaces_view(self.updated_shadow_spaces@),
        }
    }
}

/// The orders of two maps of shadow spaces agree, spaces and allocations alike.
pub open spec fn same_space_orders(a: KeyMap<ShadowSpace>, b: KeyMap<ShadowSpace>) -> bool {
    &&& a.raw_keys() == b.raw_keys()
    &&& forall|c: Seq<u8>| #[trigger] a@.dom().contains(c) ==> a@[c].alloc_keys() == b@[c].alloc_keys()
}

/// Two contract deltas hold the same changes in the same orders.
pub open spec fn same_contract_delta(a: CHContractDelta, b: CHContractDelta) -> bool {
    &&& a@ == b@
    &&& a.deallocs_list.raw_keys() == b.deallocs_list.raw_keys()
    &&& a.updated_contract_balances.raw_keys() == b.updated_contract_balances.raw_keys()
    &&& same_space_orders(a.updated_shadow_spaces, b.updated_shadow_spaces)
}

/// A copy of a map of key lists, in the same order.
fn copy_lists(m: &KeyMap<Vec<Key>>) -> (r: KeyMap<Vec<Key>>)
    ensures
        lists_view(r@) == lists_view(m@),
        r.raw_keys() == m.raw_keys(),
{
    let n = m.len();
    let mut r: KeyMap<Vec<Key>> = KeyMap::new();
    let mut i: usize = 0;
    while i < n
        invariant
            0 <= i <= n,
            n == m.key_seq().len(),
            m.key_seq().no_duplicates(),
            forall|k: Seq<u8>| m@.dom().contains(k) <==> m.key_seq().contains(k),
            r.raw_keys() == m.raw_keys().subrange(0, i as int),
            forall|k: Seq<u8>| r@.dom().contains(k) <==> m.key_seq().subrange(0, i as int).contains(k),
            forall|k: Seq<u8>| #[trigger] r@.dom().contains(k) ==> r@[k]@ == m@[k]@,
        decreases n - i,
    {
        let k = m.key_at(i);
        let v = copy_keys(m.value_at(i));
        proof {
            if m.key_seq().subrange(0, i as int).contains(k@) {
                let j = choose|j: int| 0 <= j < i && m.key_seq().subrange(0, i as int)[j] == k@;
                assert(m.key_seq()[j] == m.key_seq()[i as int]);
            }
        }
        r.insert(k, v);
        proof {
            assert(m.key_seq().subrange(0, i + 1) =~= m.key_seq().subrange(0, i as int).push(k@));
            assert(m.raw_keys().subrange(0, i + 1) =~= m.raw_keys().subrange(0, i as int).push(k));
            lemma_push_contains(m.key_seq().subrange(0, i as int), k@);
        }
        i = i + 1;
    }
    assert(m.key_seq().subrange(0, n as int) =~= m.key_seq());
    assert(m.raw_keys().subrange(0, n as int) =~= m.raw_keys());
    assert(lists_view(r@) =~= lists_view(m@));
    r
}

/// A copy of a map of shadow spaces, in the same orders.
pub fn copy_spaces(m: &KeyMap<ShadowSpace>) -> (r: KeyMap<ShadowSpace>)
    ensures
        spaces_view(r@) == spaces_view(m@),
        same_space_orders(r, *m),
{
    let n = m.len();
    let mut r: KeyMap<ShadowSpace> = KeyMap::new();
    let mut i: usize = 0;
    while i < n
        invariant
            0 <= i <= n,
            n == m.key_seq().len(),
            m.key_seq().no_duplicates(),
            forall|k: Seq<u8>| m@.dom().contains(k) <==> m.key_seq().contains(k),
            r.raw_keys() == m.raw_keys().subrange(0, i as int),
            forall|k: Seq<u8>| r@.dom().contains(k) <==> m.key_seq().subrange(0, i as int).contains(k),
            forall|k: Seq<u8>| #[trigger] r@.dom().contains(k) ==> r@[k]@ == m@[k]@ && r@[k].alloc_keys() == m@[k].alloc_keys(),
        decreases n - i,
    {
        let k = m.key_at(i);
        let v = m.value_at(i).duplicate();
        proof {
            if m.key_seq().subrange(0, i as int).contains(k@) {
                let j = choose|j: int| 0 <= j < i && m.key_seq().subrange(0, i as int)[j] == k@;
                assert(m.key_seq()[j] == m.key_seq()[i as int]);
            }
        }
        r.insert(k, v);
        proof {
            assert(m.key_seq().subrange(0, i + 1) =~= m.key_seq().subrange(0, i as int).push(k@));
            assert(m.raw_keys().subrange(0, i + 1) =~= m.raw_keys().subrange(0, i as int).push(k));
            lemma_push_contains(m.key_seq().subrange(0, i as int), k@);
        }
        i = i + 1;
    }
    assert(m.key_seq().subrange(0, n as int) =~= m.key_seq());
    assert(m.raw_keys().subrange(0, n as int) =~= m.raw_keys());
    assert(spaces_view(r@) =~= spaces_view(m@));
    r
}

impl CHContractDelta {
    /// No ephemeral change.
    pub fn new() -> (r: Self)
        ensures
            r@ == CHContractDeltaView::empty(),
    {
        let r = CHContractDelta {
            new_contracts_to_register: Vec::new(),
            allocs_list: KeyMap::new(),
            deallocs_list: KeyMap::new(),
            updated_contract_balances: KeyMap::new(),
            updated_shadow_spaces: KeyMap::new(),
        };
        assert(r@ =~= CHContractDeltaView::empty());
        r
    }

    /// Clears all changes.
    pub fn flush(&mut self)
        ensures
            final(self)@ == CHContractDeltaView::empty(),
    {
        self.new_contracts_to_register.clear();
        self.allocs_list.clear();
        self.deallocs_list.clear();
        self.updated_contract_balances.clear();
        self.updated_shadow_spaces.clear();
        assert(self@ =~= CHContractDeltaView::empty());
    }

    /// A copy of the changes, in the same orders.
    pub fn duplicate(&self) -> (r: Self)
        ensures
            same_contract_delta(r, *self),
    {
        CHContractDelta {
            new_contracts_to_register: copy_keys(&self.new_contracts_to_register),
            allocs_list: copy_lists(&self.allocs_list),
            deallocs_list: copy_lists(&self.deallocs_list),
            updated_contract_balances: self.updated_contract_balances.copy(),
            updated_shadow_spaces: copy_spaces(&self.updated_shadow_spaces),
        }
    }

    /// Whether a contract is among the contracts to register.
    pub fn is_new(&self, contract_id: &Key) -> (r: bool)
        ensures
            r == self@.is_new(contract_id@),
    {
        crate::keymap::keys_contain(&self.new_contracts_to_register, contract_id)
    }

    /// Whether a contract's list of new allocations holds an account.
    pub fn is_just_allocated(&self, contract_id: &Key, account_key: &Key) -> (r: bool)
        ensures
            r == CHContractDeltaView::listed(self@.allocs_list, contract_id@, account_key@),
    {
        match self.allocs_list.get(contract_id) {
            Some(list) => crate::keymap::keys_contain(list, account_key),
            None => false,
        }
    }

    /// Whether a contract's list of deallocations holds an account.
    pub fn is_just_deallocated(&self, contract_id: &Key, account_key: &Key) -> (r: bool)
        ensures
            r == CHContractDeltaView::listed(self@.deallocs_list, contract_id@, account_key@),
    {
        match self.deallocs_list.get(contract_id) {
            Some(list) => crate::keymap::keys_contain(list, account_key),
            None => false,
        }
    }
}

} // verus!
