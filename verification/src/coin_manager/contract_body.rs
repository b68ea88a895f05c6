use super::shadow_space::{ShadowSpace, ShadowSpaceView};
use vstd::prelude::*;

verus! {

/// The abstract content of a contract body.
#[verifier::ext_equal]
pub struct CMContractBodyView {
    pub balance: u64,
    pub shadow_space: ShadowSpaceView,
}

/// The BTC balance and shadow space of a contract.
pub struct CMContractBody {
    /// The contract's BTC balance, in satoshis.
    pub balance: u64,
    /// The contract's shadow space.
    pub shadow_space: ShadowSpace,
}

impl View for CMContractBody {
    type V = CMContractBodyView;

    open spec fn view(&self) -> CMContractBodyView {
        CMContractBodyView { balance: self.balance, shadow_space: self.shadow_space@ }
    }
}

impl CMContractBody {
    /// Constructs a contract body.
    pub fn new(balance: u64, shadow_space: ShadowSpace) -> (r: Self)
        ensures
            r@ == (CMContractBodyView { balance, shadow_space: shadow_space@ }),
            r.shadow_space.allocs.raw_keys() == shadow_space.allocs.raw_keys(),
    {
        CMContractBody { balance, shadow_space }
    }

    /// Updates the contract balance.
    pub fn update_balance(&mut self, balance: u64)
        ensures
            final(self)@ == (CMContractBodyView { balance, ..old(self)@ }),
            final(self).shadow_space.allocs.raw_keys() == old(self).shadow_space.allocs.raw_keys(),
    {
        self.balance = balance;
    }

    /// Replaces the contract's shadow space.
    pub fn update_shadow_space(&mut self, shadow_space: ShadowSpace)
        ensures
            final(self)@ == (CMContractBodyView { shadow_space: shadow_space@, ..old(self)@ }),
            final(self).shadow_space.allocs.raw_keys() == shadow_space.allocs.raw_keys(),
    {
        self.shadow_space = shadow_space;
    }

    /// A copy of the contract body.
    pub fn duplicate(&self) -> (r: Self)
        ensures
            r@ == self@,
            r.shadow_space.allocs.raw_keys() == self.shadow_space.allocs.raw_keys(),
    {
        CMContractBody { balance: self.balance, shadow_space: self.shadow_space.duplicate() }
    }
}

} // verus!
