use crate::keymap::{Key, KeyMap};
use vstd::prelude::*;

verus! {

/// The abstract content of a graveyard's ephemeral changes.
#[verifier::ext_equal]
pub struct GraveyardDeltaView {
    /// Accounts to bury, with the amounts owed to them.
    pub accounts_to_bury: Map<Seq<u8>, u64>,
    /// Buried accounts redeeming their coins, with the amounts redeemed.
    pub redemptions: Map<Seq<u8>, u64>,
}

impl GraveyardDeltaView {
    /// No ephemeral change.
    pub open spec fn empty() -> Self {
        GraveyardDeltaView { accounts_to_bury: Map::empty(), redemptions: Map::empty() }
    }
}

/// Ephemeral changes of a graveyard, to be applied later.
pub struct GraveyardDelta {
    /// Accounts to bury, with the amounts owed to them.
    pub accounts_to_bury: KeyMap<u64>,
    /// Buried accounts redeeming their coins, with the amounts redeemed.
    pub redemptions: KeyMap<u64>,
}

impl View for GraveyardDelta {
    type V = GraveyardDeltaView;

    open spec fn view(&self) -> GraveyardDeltaView {
        GraveyardDeltaView { accounts_to_bury: self.accounts_to_bury@, redemptions: self.redemptions@ }
    }
}

impl GraveyardDelta {
    /// No ephemeral change.
    pub fn fresh_new() -> (r: Self)
        ensures
            r@ == GraveyardDeltaView::empty(),
    {
        GraveyardDelta { accounts_to_bury: KeyMap::new(), redemptions: KeyMap::new() }
    }

    /// Clears all ephemeral changes.
    pub fn flush(&mut self)
        ensures
            final(self)@ == GraveyardDeltaView::empty(),
    {
        self.accounts_to_bury.clear();
        self.redemptions.clear();
    }

    /// A copy of the ephemeral changes, in the same key orders.
    pub fn duplicate(&self) -> (r: Self)
        ensures
            r@ == self@,
            r.accounts_to_bury.raw_keys() == self.accounts_to_bury.raw_keys(),
            r.redemptions.raw_keys() == self.redemptions.raw_keys(),
    {
        GraveyardDelta { accounts_to_bury: self.accounts_to_bury.copy(), redemptions: self.redemptions.copy() }
    }

    /// Whether an account has just been buried.
    pub fn is_account_ephemerally_buried(&self, account_key: Key) -> (r: bool)
        ensures
            r == self@.accounts_to_bury.dom().contains(account_key@),
    {
        self.accounts_to_bury.contains_key(&account_key)
    }

    /// Whether an account has just redeemed its coins.
    pub fn is_account_ephemerally_redeemed(&self, account_key: Key) -> (r: bool)
        ensures
            r == self@.redemptions.dom().contains(account_key@),
    {
        self.redemptions.contains_key(&account_key)
    }

    /// Buries an account ephemerally with the amount owed to it.
    pub fn ephemerally_bury_account(&mut self, account_key: Key, redemption_amount: u64)
        ensures
            final(self)@ == (GraveyardDeltaView {
                accounts_to_bury: old(self)@.accounts_to_bury.insert(account_key@, redemption_amount),
                ..old(self)@
            }),
    {
        self.accounts_to_bury.insert(account_key, redemption_amount);
    }

    /// Records an ephemeral redemption of an account's coins.
    pub fn ephemerally_redeem_account_coins(&mut self, account_key: Key, redemption_amount: u64)
        ensures
            final(self)@ == (GraveyardDeltaView {
                redemptions: old(self)@.redemptions.insert(account_key@, redemption_amount),
                ..old(self)@
            }),
    {
        self.redemptions.insert(account_key, redemption_amount);
    }
}

} // verus!
