use crate::keymap::{key_views, Key, KeyMap};
use vstd::prelude::*;

verus! {

/// One satoshi expressed in sati-satoshis.
pub const SATI_SATOSHIS_PER_SATOSHI: u128 = 100_000_000;

/// The abstract content of a shadow space.
#[verifier::ext_equal]
pub struct ShadowSpaceView {
    /// Total allocated value of the space, in satoshis.
    pub allocs_sum: u64,
    /// Allocated value of each account, in sati-satoshis.
    pub allocs: Map<Seq<u8>, u128>,
}

impl ShadowSpaceView {
    /// The shadow space with no allocation.
    pub open spec fn empty() -> Self {
        ShadowSpaceView { allocs_sum: 0, allocs: Map::empty() }
    }
}

/// A shadow space of a contract: how much of the contract's balance each account is allocated.
pub struct ShadowSpace {
    allocs_sum: u64,
    allocs: KeyMap<u128>,
}

impl View for ShadowSpace {
    type V = ShadowSpaceView;

    closed spec fn view(&self) -> ShadowSpaceView {
        ShadowSpaceView { allocs_sum: self.allocs_sum, allocs: self.allocs@ }
    }
}

impl ShadowSpace {
    /// The allocated accounts in the order in which they were first allocated.
    pub closed spec fn alloc_keys(&self) -> Seq<Key> {
        self.allocs.raw_keys()
    }

    /// The allocations as a map, with their order.
    pub closed spec fn alloc_map(&self) -> KeyMap<u128> {
        self.allocs
    }

    /// An account is allocated exactly when it is among the allocated accounts.
    pub proof fn lemma_alloc_keys(&self)
        ensures
            forall|x: Seq<u8>| self@.allocs.dom().contains(x) <==> key_views(self.alloc_keys()).contains(x),
    {
        self.allocs.lemma_dom_keys();
        assert(key_views(self.alloc_keys()) == self.allocs.key_seq());
    }

    /// A shadow space with no allocation.
    pub fn fresh_new() -> (r: Self)
        ensures
            r@ == ShadowSpaceView::empty(),
            r.alloc_keys() == Seq::<Key>::empty(),
    {
        ShadowSpace { allocs_sum: 0, allocs: KeyMap::new() }
    }

    /// A shadow space with the given allocs sum and allocations.
    pub fn new(allocs_sum: u64, allocs: KeyMap<u128>) -> (r: Self)
        ensures
            r@ == (ShadowSpaceView { allocs_sum, allocs: allocs@ }),
            r.alloc_keys() == allocs.raw_keys(),
            r.alloc_map() == allocs,
    {
        ShadowSpace { allocs_sum, allocs }
    }

    /// The allocations sum, in satoshis.
    pub fn allocs_sum(&self) -> (r: u64)
        ensures
            r == self@.allocs_sum,
    {
        self.allocs_sum
    }

    /// The number of allocations.
    pub fn allocs_len(&self) -> (r: usize)
        ensures
            r == self@.allocs.dom().len(),
            r == self.alloc_keys().len(),
            self@.allocs.dom().finite(),
    {
        self.allocs.len()
    }

    /// The allocations.
    pub fn allocs(&self) -> (r: &KeyMap<u128>)
        ensures
            r@ == self@.allocs,
            r.raw_keys() == self.alloc_keys(),
            *r == self.alloc_map(),
    {
        &self.allocs
    }

    /// The allocation of an account, if it has one.
    pub fn alloc_value(&self, account_key: &Key) -> (r: Option<u128>)
        ensures
            r == (if self@.allocs.dom().contains(account_key@) {
                Some(self@.allocs[account_key@])
            } else {
                None::<u128>
            }),
    {
        match self.allocs.get(account_key) {
            Some(v) => Some(*v),
            None => None,
        }
    }

    /// Sets the allocations sum.
    pub fn update_allocs_sum(&mut self, new_value: u64)
        ensures
            final(self)@ == (ShadowSpaceView { allocs_sum: new_value, ..old(self)@ }),
            final(self).alloc_keys() == old(self).alloc_keys(),
    {
        self.allocs_sum = new_value;
    }

    /// Sets an account's allocation; returns whether the account had none before.
    pub fn insert_alloc(&mut self, account_key: Key, alloc_value: u128) -> (r: bool)
        ensures
            final(self)@ == (ShadowSpaceView { allocs: old(self)@.allocs.insert(account_key@, alloc_value), ..old(self)@ }),
            r == !old(self)@.allocs.dom().contains(account_key@),
            r ==> final(self).alloc_keys() == old(self).alloc_keys().push(account_key),
            !r ==> final(self).alloc_keys() == old(self).alloc_keys(),
    {
        self.allocs.insert(account_key, alloc_value)
    }

    /// Removes an account's allocation; returns whether it had one.
    pub fn remove_alloc(&mut self, account_key: Key) -> (r: bool)
        ensures
            final(self)@ == (ShadowSpaceView { allocs: old(self)@.allocs.remove(account_key@), ..old(self)@ }),
            r == old(self)@.allocs.dom().contains(account_key@),
    {
        match self.allocs.remove(&account_key) {
            Some(_) => true,
            None => false,
        }
    }

    /// A copy of the shadow space, with its allocations in the same order.
    pub fn duplicate(&self) -> (r: Self)
        ensures
            r@ == self@,
            r.alloc_keys() == self.alloc_keys(),
    {
        ShadowSpace { allocs_sum: self.allocs_sum, allocs: self.allocs.copy() }
    }
}

/// The abstract content of an account body.
pub struct CHAccountBodyView {
    /// Account balance, in satoshis.
    pub balance: u64,
    /// Sum of the account's allocations over all contracts, in sati-satoshis.
    pub shadow_allocs_sum: u128,
}

/// An account's balance and the sum of its shadow allocations over all contracts.
#[derive(Clone, Copy)]
pub struct CHAccountBody {
    balance: u64,
    shadow_allocs_sum: u128,
}

impl View for CHAccountBody {
    type V = CHAccountBodyView;

    closed spec fn view(&self) -> CHAccountBodyView {
        CHAccountBodyView { balance: self.balance, shadow_allocs_sum: self.shadow_allocs_sum }
    }
}

impl CHAccountBody {
    /// An account body with the given balance and shadow allocs sum.
    pub fn new(balance: u64, shadow_allocs_sum: u128) -> (r: Self)
        ensures
            r@ == (CHAccountBodyView { balance, shadow_allocs_sum }),
    {
        CHAccountBody { balance, shadow_allocs_sum }
    }

    /// The account balance, in satoshis.
    pub fn balance(&self) -> (r: u64)
        ensures
            r == self@.balance,
    {
        self.balance
    }

    /// The account shadow allocs sum, in sati-satoshis.
    pub fn shadow_allocs_sum(&self) -> (r: u128)
        ensures
            r == self@.shadow_allocs_sum,
    {
        self.shadow_allocs_sum
    }

    /// Sets the account balance.
    pub fn update_balance(&mut self, balance: u64)
        ensures
            final(self)@ == (CHAccountBodyView { balance, ..old(self)@ }),
    {
        self.balance = balance;
    }

    /// Sets the account shadow allocs sum.
    pub fn update_shadow_allocs_sum(&mut self, shadow_allocs_sum: u128)
        ensures
            final(self)@ == (CHAccountBodyView { shadow_allocs_sum, ..old(self)@ }),
    {
        self.shadow_allocs_sum = shadow_allocs_sum;
    }
}

/// The abstract content of a contract body.
#[verifier::ext_equal]
pub struct CHContractBodyView {
    /// Contract balance, in satoshis.
    pub balance: u64,
    /// Contract shadow space.
    pub shadow_space: ShadowSpaceView,
}

/// A contract's balance and shadow space.
pub struct CHContractBody {
    balance: u64,
    shadow_space: ShadowSpace,
}

impl View for CHContractBody {
    type V = CHContractBodyView;

    closed spec fn view(&self) -> CHContractBodyView {
        CHContractBodyView { balance: self.balance, shadow_space: self.shadow_space@ }
    }
}

impl CHContractBody {
    /// The order of the allocations of the contract's shadow space.
    pub closed spec fn alloc_keys(&self) -> Seq<Key> {
        self.shadow_space.alloc_keys()
    }

    /// A contract body with the given balance and shadow space.
    pub fn new(balance: u64, shadow_space: ShadowSpace) -> (r: Self)
        ensures
            r@ == (CHContractBodyView { balance, shadow_space: shadow_space@ }),
            r.alloc_keys() == shadow_space.alloc_keys(),
    {
        CHContractBody { balance, shadow_space }
    }

    /// The contract balance, in satoshis.
    pub fn balance(&self) -> (r: u64)
        ensures
            r == self@.balance,
    {
        self.balance
    }

    /// The contract shadow space.
    pub fn shadow_space(&self) -> (r: &ShadowSpace)
        ensures
            r@ == self@.shadow_space,
            r.alloc_keys() == self.alloc_keys(),
    {
        &self.shadow_space
    }

    /// The contract shadow space, to change in place.
    pub fn shadow_space_mut(&mut self) -> (r: &mut ShadowSpace)
        ensures
            r@ == old(self)@.shadow_space,
            r.alloc_keys() == old(self).alloc_keys(),
            final(self)@ == (CHContractBodyView { shadow_space: final(r)@, ..old(self)@ }),
            final(self).alloc_keys() == final(r).alloc_keys(),
    {
        &mut self.shadow_space
    }

    /// Sets the contract balance.
    pub fn update_balance(&mut self, balance: u64)
        ensures
            final(self)@ == (CHContractBodyView { balance, ..old(self)@ }),
            final(self).alloc_keys() == old(self).alloc_keys(),
    {
        self.balance = balance;
    }

    /// Replaces the contract shadow space.
    pub fn update_shadow_space(&mut self, shadow_space: ShadowSpace)
        ensures
            final(self)@ == (CHContractBodyView { shadow_space: shadow_space@, ..old(self)@ }),
            final(self).alloc_keys() == shadow_space.alloc_keys(),
    {
        self.shadow_space = shadow_space;
    }

    /// A copy of the contract body.
    pub fn duplicate(&self) -> (r: Self)
        ensures
            r@ == self@,
            r.alloc_keys() == self.alloc_keys(),
    {
        CHContractBody { balance: self.balance, shadow_space: self.shadow_space.duplicate() }
    }
}

} // verus!
