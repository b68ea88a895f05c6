use crate::keymap::KeyMap;
use vstd::prelude::*;

verus! {

/// Account-side state differences to be applied.
pub struct CHAccountDelta {
    /// New accounts to register, with their initial balances.
    pub new_accounts_to_register: KeyMap<u64>,
    /// Updated account balances.
    pub updated_account_balances: KeyMap<u64>,
    /// Updated shadow allocs sums.
    pub updated_shadow_allocs_sums: KeyMap<u128>,
}

impl CHAccountDelta {
    /// Whether the delta holds no change.
    pub open spec fn is_empty(self) -> bool {
        &&& self.new_accounts_to_register@ == Map::<Seq<u8>, u64>::empty()
        &&& self.updated_account_balances@ == Map::<Seq<u8>, u64>::empty()
        &&& self.updated_shadow_allocs_sums@ == Map::<Seq<u8>, u128>::empty()
    }

    /// Constructs an empty account delta.
    pub fn new() -> (r: Self)
        ensures
            r.is_empty(),
    {
        CHAccountDelta {
            new_accounts_to_register: KeyMap::new(),
            updated_account_balances: KeyMap::new(),
            updated_shadow_allocs_sums: KeyMap::new(),
        }
    }

    /// Clears all values.
    pub fn flush(&mut self)
        ensures
            final(self).is_empty(),
    {
        self.new_accounts_to_register.clear();
        self.updated_account_balances.clear();
        self.updated_shadow_allocs_sums.clear();
    }
}

} // verus!
