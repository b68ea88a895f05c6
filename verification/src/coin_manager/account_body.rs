use vstd::prelude::*;

verus! {

/// The BTC balance and global shadow allocs sum of an account.
#[derive(Clone, Copy, Debug)]
pub struct CMAccountBody {
    /// The account's BTC balance, in satoshis.
    pub balance: u64,
    /// The sum of the account's allocations across all contracts, in sati-satoshis.
    pub global_shadow_allocs_sum: u128,
}

impl CMAccountBody {
    /// Constructs an account body.
    pub fn new(balance: u64, global_shadow_allocs_sum: u128) -> (r: Self)
        ensures
            r == (CMAccountBody { balance, global_shadow_allocs_sum }),
    {
        CMAccountBody { balance, global_shadow_allocs_sum }
    }

    /// Updates the account balance.
    pub fn update_balance(&mut self, balance: u64)
        ensures
            *final(self) == (CMAccountBody { balance, ..*old(self) }),
    {
        self.balance = balance;
    }

    /// Updates the account's global shadow allocs sum.
    pub fn update_global_shadow_allocs_sum(&mut self, global_shadow_allocs_sum: u128)
        ensures
            *final(self) == (CMAccountBody { global_shadow_allocs_sum, ..*old(self) }),
    {
        self.global_shadow_allocs_sum = global_shadow_allocs_sum;
    }
}

} // verus!
