use super::delta::GraveyardDeltaView;
use super::errors::{GraveyardBuryAccountError, GraveyardRedeemAccountCoinsError};
use super::graveyard::{entries_loaded, gop_bytes, gop_key, written_over, GraveyardDiskOp, GraveyardView, MIN_REDEMPTION_AMOUNT};
use crate::keymap::Key;
use vstd::prelude::*;

verus! {

impl GraveyardView {
    /// The ephemeral changes fit the permanent state: only permanently buried accounts redeem, and
    /// only accounts not yet permanently buried are buried anew.
    pub open spec fn consistent(self) -> bool {
        &&& forall|k: Seq<u8>| #[trigger] self.delta.redemptions.dom().contains(k) ==> self.buried.dom().contains(k)
        &&& forall|k: Seq<u8>| #[trigger] self.delta.accounts_to_bury.dom().contains(k) ==> !self.buried.dom().contains(k)
    }
}

/// A graveyard with no ephemeral change is consistent.
pub proof fn law_fresh_graveyard_consistent(buried: Map<Seq<u8>, u64>)
    ensures
        (GraveyardView { buried, delta: GraveyardDeltaView::empty(), backup: GraveyardDeltaView::empty() }).consistent(),
{
}

/// Burying an account succeeds exactly when it is not buried yet; afterwards it is buried, the
/// amount it can redeem is the amount it was buried with, and burying it again fails.
pub proof fn law_bury_then_read(g: GraveyardView, k: Key, amount: u64, again: u64)
    requires
        g.consistent(),
    ensures
        g.bury(k, amount) is Ok <==> !g.is_buried(k@),
        g.bury(k, amount) matches Ok(s) ==> {
            &&& s.consistent()
            &&& s.is_buried(k@)
            &&& s.redemption_amount(k@) == Some(amount)
            &&& s.bury(k, again) == Err::<GraveyardView, GraveyardBuryAccountError>(
                GraveyardBuryAccountError::AccountHasJustBeenEpheremallyBuried(k))
            &&& forall|o: Seq<u8>| o != k@ ==> #[trigger] s.redemption_amount(o) == g.redemption_amount(o)
        },
{
}

/// Redeeming succeeds exactly for a permanently buried account, not redeemed or buried in this
/// execution, owed at least the minimum; it hands out what the account is owed, after which the
/// account can redeem nothing and a second redemption fails.
pub proof fn law_redeem_then_read(g: GraveyardView, k: Key)
    requires
        g.consistent(),
    ensures
        g.redeem(k) is Ok <==> {
            &&& !g.delta.redemptions.dom().contains(k@)
            &&& g.buried.dom().contains(k@)
            &&& g.buried[k@] >= MIN_REDEMPTION_AMOUNT
        },
        g.redeem(k) matches Ok((s, v)) ==> {
            &&& s.consistent()
            &&& g.redemption_amount(k@) == Some(v)
            &&& v >= MIN_REDEMPTION_AMOUNT
            &&& s.redemption_amount(k@) == Some(0u64)
            &&& s.redeem(k) == Err::<(GraveyardView, u64), GraveyardRedeemAccountCoinsError>(
                GraveyardRedeemAccountCoinsError::AccountCoinsHasJustBeenEphemerallyRedeemed(k))
            &&& forall|o: Seq<u8>| o != k@ ==> #[trigger] s.redemption_amount(o) == g.redemption_amount(o)
        },
{
}

/// Applying the ephemeral changes of a consistent graveyard keeps what every account can redeem and
/// whether it is buried.
pub proof fn law_apply_keeps_reads(g: GraveyardView)
    requires
        g.consistent(),
    ensures
        ({
            let a = GraveyardView { buried: g.applied(), delta: GraveyardDeltaView::empty(), backup: GraveyardDeltaView::empty() };
            &&& a.consistent()
            &&& forall|k: Seq<u8>| #[trigger] a.redemption_amount(k) == g.redemption_amount(k)
            &&& forall|k: Seq<u8>| #[trigger] a.is_buried(k) == g.is_buried(k)
        }),
{
    let a = GraveyardView { buried: g.applied(), delta: GraveyardDeltaView::empty(), backup: GraveyardDeltaView::empty() };
    assert forall|k: Seq<u8>| #[trigger] a.redemption_amount(k) == g.redemption_amount(k) by {
        if g.delta.redemptions.dom().contains(k) {
            assert(g.buried.dom().contains(k));
            assert(!g.delta.accounts_to_bury.dom().contains(k));
        }
    }
}

/// A store holding the stored entries followed by one entry per write (the write's account key and
/// bytes) is rebuilt as the writes made over the graveyard the stored entries hold: what applying
/// the changes writes to the store is what a graveyard rebuilt from it holds.
pub proof fn law_writes_reload(stored: Seq<(Vec<u8>, Vec<u8>)>, writes: Seq<GraveyardDiskOp>, appended: Seq<(Vec<u8>, Vec<u8>)>)
    requires
        appended.len() == writes.len(),
        forall|i: int| 0 <= i < writes.len() ==> (#[trigger] appended[i]).0@ == gop_key(writes[i])@
            && appended[i].1@ == gop_bytes(writes[i]),
    ensures
        entries_loaded(stored + appended) == written_over(entries_loaded(stored), writes),
    decreases writes.len(),
{
    if writes.len() > 0 {
        law_writes_reload(stored, writes.drop_last(), appended.drop_last());
        assert((stored + appended).drop_last() =~= stored + appended.drop_last());
        assert((stored + appended).last() == appended.last());
    } else {
        assert(stored + appended =~= stored);
    }
}

/// Backing up the changes before an execution and rolling back after it restores the state as it
/// was before the execution, whatever the execution changed in between.
pub proof fn law_rollback_restores(before: GraveyardView, during: GraveyardView)
    requires
        during.buried == before.buried,
        during.backup == before.delta,
    ensures
        (GraveyardView { delta: during.backup, ..during }) == (GraveyardView { backup: before.delta, ..before }),
{
}

/// An ephemeral redemption is seen at once and stays until the changes are flushed: recording a
/// redemption marks the account redeemed, and burying any account leaves the redemptions as they
/// were.
pub proof fn law_ephemeral_redemption_stays(d: GraveyardDeltaView, k: Seq<u8>, k2: Seq<u8>, amount: u64)
    ensures
        (GraveyardDeltaView { redemptions: d.redemptions.insert(k, amount), ..d }).redemptions.dom().contains(k),
        (GraveyardDeltaView { accounts_to_bury: d.accounts_to_bury.insert(k2, amount), ..d }).redemptions == d.redemptions,
{
}

/// The delta after burying accounts in order, each with the amount owed to it.
pub open spec fn buried_over(d: GraveyardDeltaView, bs: Seq<(Seq<u8>, u64)>) -> GraveyardDeltaView
    decreases bs.len(),
{
    if bs.len() == 0 {
        d
    } else {
        let p = buried_over(d, bs.drop_last());
        GraveyardDeltaView { accounts_to_bury: p.accounts_to_bury.insert(bs.last().0, bs.last().1), ..p }
    }
}

/// Any number of ephemeral burials leave every account's ephemeral redemption as it was: an
/// account redeemed ephemerally stays redeemed, and one that was not stays not redeemed.
pub proof fn law_redemption_stays_over_burials(d: GraveyardDeltaView, k: Seq<u8>, amount: u64, bs: Seq<(Seq<u8>, u64)>)
    ensures
        buried_over(d, bs).redemptions == d.redemptions,
        buried_over(GraveyardDeltaView { redemptions: d.redemptions.insert(k, amount), ..d }, bs).redemptions.dom().contains(k),
    decreases bs.len(),
{
    if bs.len() > 0 {
        law_redemption_stays_over_burials(d, k, amount, bs.drop_last());
    }
}

} // verus!
