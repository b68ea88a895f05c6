use super::delta::{GraveyardDelta, GraveyardDeltaView};
use super::errors::{GraveyardBuryAccountError, GraveyardConstructionError, GraveyardRedeemAccountCoinsError};
use crate::codec::{bytes_copy, bytes_to_array32, le_encode, le_value, lemma_le_encode_len, u64_from_le_bytes, u64_to_le_bytes};
use crate::keymap::{Key, KeyMap};
use vstd::prelude::*;

verus! {

/// The smallest amount that can be redeemed, in satoshis.
pub const MIN_REDEMPTION_AMOUNT: u64 = 500;

/// A write to the stored graveyard: an account's redemption amount, as eight little-endian bytes.
#[derive(Debug)]
pub enum GraveyardDiskOp {
    PutRedemptionAmount(Key, Vec<u8>),
}

/// The account a write is for.
pub open spec fn gop_key(op: GraveyardDiskOp) -> Key {
    match op {
        GraveyardDiskOp::PutRedemptionAmount(k, v) => k,
    }
}

/// The bytes a write stores.
pub open spec fn gop_bytes(op: GraveyardDiskOp) -> Seq<u8> {
    match op {
        GraveyardDiskOp::PutRedemptionAmount(k, v) => v@,
    }
}

/// The buried accounts a store holds once the writes are made over it, in order, each write
/// storing its account's amount (the store read as a graveyard is rebuilt from it).
pub open spec fn written_over(stored: Map<Seq<u8>, u64>, ops: Seq<GraveyardDiskOp>) -> Map<Seq<u8>, u64>
    decreases ops.len(),
{
    if ops.len() == 0 {
        stored
    } else {
        written_over(stored, ops.drop_last()).insert(gop_key(ops.last())@, le_value(gop_bytes(ops.last())) as u64)
    }
}

/// The abstract state of a graveyard.
#[verifier::ext_equal]
pub struct GraveyardView {
    /// Permanently buried accounts with the amounts owed to them.
    pub buried: Map<Seq<u8>, u64>,
    /// Ephemeral changes.
    pub delta: GraveyardDeltaView,
    /// Backup of the ephemeral changes, for rollback.
    pub backup: GraveyardDeltaView,
}

impl GraveyardView {
    /// Whether an account is buried, permanently or ephemerally.
    pub open spec fn is_buried(self, k: Seq<u8>) -> bool {
        self.delta.accounts_to_bury.dom().contains(k) || self.buried.dom().contains(k)
    }

    /// The amount an account can redeem: nothing once it has just redeemed, else what it is owed.
    pub open spec fn redemption_amount(self, k: Seq<u8>) -> Option<u64> {
        if self.delta.redemptions.dom().contains(k) {
            Some(0)
        } else if self.delta.accounts_to_bury.dom().contains(k) {
            Some(self.delta.accounts_to_bury[k])
        } else if self.buried.dom().contains(k) {
            Some(self.buried[k])
        } else {
            None
        }
    }

    /// Outcome of burying an account with the amount owed to it.
    pub open spec fn bury(self, k: Key, amount: u64) -> Result<Self, GraveyardBuryAccountError> {
        if self.delta.accounts_to_bury.dom().contains(k@) {
            Err(GraveyardBuryAccountError::AccountHasJustBeenEpheremallyBuried(k))
        } else if self.buried.dom().contains(k@) {
            Err(GraveyardBuryAccountError::AccountIsAlreadyPermanentlyBuried(k))
        } else {
            Ok(GraveyardView {
                delta: GraveyardDeltaView { accounts_to_bury: self.delta.accounts_to_bury.insert(k@, amount), ..self.delta },
                ..self
            })
        }
    }

    /// Outcome of redeeming a permanently buried account's coins: the new state and the amount.
    pub open spec fn redeem(self, k: Key) -> Result<(Self, u64), GraveyardRedeemAccountCoinsError> {
        if self.delta.redemptions.dom().contains(k@) {
            Err(GraveyardRedeemAccountCoinsError::AccountCoinsHasJustBeenEphemerallyRedeemed(k))
        } else if self.delta.accounts_to_bury.dom().contains(k@) {
            Err(GraveyardRedeemAccountCoinsError::ThisAccountHasJustBeenEphemerallyBurried(k))
        } else if !self.buried.dom().contains(k@) {
            Err(GraveyardRedeemAccountCoinsError::RedemptionAmountNotFound(k))
        } else if self.buried[k@] < MIN_REDEMPTION_AMOUNT {
            Err(GraveyardRedeemAccountCoinsError::RedemptionAmountIsLessThanTheMinimumRedemptionAmount(
                k, self.buried[k@], MIN_REDEMPTION_AMOUNT))
        } else {
            Ok((GraveyardView {
                delta: GraveyardDeltaView { redemptions: self.delta.redemptions.insert(k@, self.buried[k@]), ..self.delta },
                ..self
            }, self.buried[k@]))
        }
    }

    /// The permanently buried accounts once the changes are applied: redeemed accounts are owed
    /// nothing, newly buried accounts are owed their amounts.
    pub open spec fn applied(self) -> Map<Seq<u8>, u64> {
        self.buried.union_prefer_right(self.delta.redemptions.map_values(|v: u64| 0u64)).union_prefer_right(
            self.delta.accounts_to_bury)
    }
}

/// Keeps buried accounts and the amounts owed to them, with ephemeral changes on top.
pub struct Graveyard {
    in_memory_buried_accounts: KeyMap<u64>,
    delta: GraveyardDelta,
    backup_of_delta: GraveyardDelta,
}

impl View for Graveyard {
    type V = GraveyardView;

    closed spec fn view(&self) -> GraveyardView {
        GraveyardView { buried: self.in_memory_buried_accounts@, delta: self.delta@, backup: self.backup_of_delta@ }
    }
}

/// The buried accounts a store of entries holds, when every key is an account key and every value
/// an eight-byte amount.
pub open spec fn entries_loaded(entries: Seq<(Vec<u8>, Vec<u8>)>) -> Map<Seq<u8>, u64>
    decreases entries.len(),
{
    if entries.len() == 0 {
        Map::empty()
    } else {
        entries_loaded(entries.drop_last()).insert(entries.last().0@, le_value(entries.last().1@) as u64)
    }
}

/// A stored entry is well formed.
pub open spec fn entry_ok(e: (Vec<u8>, Vec<u8>)) -> bool {
    e.0@.len() == 32 && e.1@.len() == 8
}

/// The error reported for an ill-formed stored entry.
pub open spec fn entry_fault(e: (Vec<u8>, Vec<u8>), err: GraveyardConstructionError) -> bool {
    if e.0@.len() != 32 {
        err matches GraveyardConstructionError::UnableToDeserializeAccountKeyBytesFromDBKey(k) && k@ == e.0@
    } else {
        err matches GraveyardConstructionError::UnableToDeserializeRedemptionAmountBytesFromDBValue(k, v)
            && k@ == e.0@ && v@ == e.1@
    }
}

impl Graveyard {
    /// Rebuilds a graveyard from its stored entries; fails on the first ill-formed one.
    pub fn new(entries: &Vec<(Vec<u8>, Vec<u8>)>) -> (r: Result<Graveyard, GraveyardConstructionError>)
        ensures
            match r {
                Ok(g) => (forall|i: int| 0 <= i < entries@.len() ==> entry_ok(#[trigger] entries@[i]))
                    && g@ == (GraveyardView {
                        buried: entries_loaded(entries@),
                        delta: GraveyardDeltaView::empty(),
                        backup: GraveyardDeltaView::empty(),
                    }),
                Err(e) => exists|i: int| 0 <= i < entries@.len()
                    && (forall|j: int| 0 <= j < i ==> entry_ok(#[trigger] entries@[j]))
                    && !entry_ok(entries@[i]) && #[trigger] entry_fault(entries@[i], e),
            },
    {
        let mut buried: KeyMap<u64> = KeyMap::new();
        let n = entries.len();
        let mut i: usize = 0;
        while i < n
            invariant
                0 <= i <= n,
                n == entries@.len(),
                forall|j: int| 0 <= j < i ==> entry_ok(#[trigger] entries@[j]),
                buried@ == entries_loaded(entries@.subrange(0, i as int)),
            decreases n - i,
        {
            proof {
                assert(entries@.subrange(0, i + 1).drop_last() =~= entries@.subrange(0, i as int));
                assert(entries@.subrange(0, i + 1).last() == entries@[i as int]);
            }
            let key = &entries[i].0;
            let val = &entries[i].1;
            let k = match bytes_to_array32(key.as_slice()) {
                Some(k) => k,
                None => {
                    let e = GraveyardConstructionError::UnableToDeserializeAccountKeyBytesFromDBKey(bytes_copy(key.as_slice()));
                    proof {
                        assert(entry_fault(entries@[i as int], e));
                    }
                    return Err(e);
                },
            };
            let v = match u64_from_le_bytes(val.as_slice()) {
                Some(v) => v,
                None => {
                    let e = GraveyardConstructionError::UnableToDeserializeRedemptionAmountBytesFromDBValue(
                        bytes_copy(key.as_slice()), bytes_copy(val.as_slice()));
                    proof {
                        assert(entry_fault(entries@[i as int], e));
                    }
                    return Err(e);
                },
            };
            buried.insert(k, v);
            i = i + 1;
        }
        proof {
            assert(entries@.subrange(0, n as int) =~= entries@);
        }
        Ok(Graveyard { in_memory_buried_accounts: buried, delta: GraveyardDelta::fresh_new(), backup_of_delta: GraveyardDelta::fresh_new() })
    }

    /// The order of the ephemeral redemptions.
    pub closed spec fn redemption_keys(&self) -> Seq<Key> {
        self.delta.redemptions.raw_keys()
    }

    /// The order of the ephemeral burials.
    pub closed spec fn burial_keys(&self) -> Seq<Key> {
        self.delta.accounts_to_bury.raw_keys()
    }

    /// Prepares the graveyard before each execution: backs up the delta.
    pub fn pre_execution(&mut self)
        ensures
            final(self)@ == (GraveyardView { backup: old(self)@.delta, ..old(self)@ }),
    {
        self.backup_of_delta = self.delta.duplicate();
    }

    /// Whether an account is buried, permanently or ephemerally.
    pub fn is_account_buried(&self, account_key: Key) -> (r: bool)
        ensures
            r == self@.is_buried(account_key@),
    {
        if self.delta.is_account_ephemerally_buried(account_key) {
            return true;
        }
        self.in_memory_buried_accounts.contains_key(&account_key)
    }

    /// The amount an account can redeem: zero once it has just redeemed, else what it is owed.
    pub fn get_redemption_amount(&self, account_key: Key) -> (r: Option<u64>)
        ensures
            r == self@.redemption_amount(account_key@),
    {
        if self.delta.is_account_ephemerally_redeemed(account_key) {
            return Some(0);
        }
        if self.delta.is_account_ephemerally_buried(account_key) {
            return match self.delta.accounts_to_bury.get(&account_key) {
                Some(v) => Some(*v),
                None => None,
            };
        }
        match self.in_memory_buried_accounts.get(&account_key) {
            Some(v) => Some(*v),
            None => None,
        }
    }

    /// Buries an account ephemerally with the amount owed to it.
    pub fn bury_account(&mut self, account_key: Key, redemption_amount: u64) -> (r: Result<(), GraveyardBuryAccountError>)
        ensures
            match old(self)@.bury(account_key, redemption_amount) {
                Ok(s) => r is Ok && final(self)@ == s,
                Err(e) => r == Err::<(), GraveyardBuryAccountError>(e) && final(self)@ == old(self)@,
            },
    {
        if self.delta.is_account_ephemerally_buried(account_key) {
            return Err(GraveyardBuryAccountError::AccountHasJustBeenEpheremallyBuried(account_key));
        }
        if self.in_memory_buried_accounts.contains_key(&account_key) {
            return Err(GraveyardBuryAccountError::AccountIsAlreadyPermanentlyBuried(account_key));
        }
        self.delta.ephemerally_bury_account(account_key, redemption_amount);
        Ok(())
    }

    /// Redeems a permanently buried account's coins ephemerally; returns the amount.
    pub fn redeem_account_coins(&mut self, account_key: Key) -> (r: Result<u64, GraveyardRedeemAccountCoinsError>)
        ensures
            match old(self)@.redeem(account_key) {
                Ok((s, v)) => r == Ok::<u64, GraveyardRedeemAccountCoinsError>(v) && final(self)@ == s,
                Err(e) => r == Err::<u64, GraveyardRedeemAccountCoinsError>(e) && final(self)@ == old(self)@,
            },
    {
        if self.delta.is_account_ephemerally_redeemed(account_key) {
            return Err(GraveyardRedeemAccountCoinsError::AccountCoinsHasJustBeenEphemerallyRedeemed(account_key));
        }
        if self.delta.is_account_ephemerally_buried(account_key) {
            return Err(GraveyardRedeemAccountCoinsError::ThisAccountHasJustBeenEphemerallyBurried(account_key));
        }
        let amount = match self.in_memory_buried_accounts.get(&account_key) {
            Some(v) => *v,
            None => {
                return Err(GraveyardRedeemAccountCoinsError::RedemptionAmountNotFound(account_key));
            },
        };
        if amount < MIN_REDEMPTION_AMOUNT {
            return Err(GraveyardRedeemAccountCoinsError::RedemptionAmountIsLessThanTheMinimumRedemptionAmount(
                account_key, amount, MIN_REDEMPTION_AMOUNT));
        }
        self.delta.ephemerally_redeem_account_coins(account_key, amount);
        Ok(amount)
    }

    /// Reverts the ephemeral changes of the last execution.
    pub fn rollback_last(&mut self)
        ensures
            final(self)@ == (GraveyardView { delta: old(self)@.backup, ..old(self)@ }),
    {
        self.delta = self.backup_of_delta.duplicate();
    }

    /// Applies the ephemeral changes: every redeemed account is owed zero, every newly buried account
    /// its amount; the writes are appended to `ops` (redemptions first, in order, then burials), and the
    /// ephemeral changes and their backup are cleared.
    #[verifier::loop_isolation(false)]
    pub fn apply_changes(&mut self, ops: &mut Vec<GraveyardDiskOp>)
        ensures
            final(self)@ == (GraveyardView {
                buried: old(self)@.applied(),
                delta: GraveyardDeltaView::empty(),
                backup: GraveyardDeltaView::empty(),
            }),
            final(ops)@.len() == old(ops)@.len() + old(self).redemption_keys().len() + old(self).burial_keys().len(),
            final(ops)@.subrange(0, old(ops)@.len() as int) == old(ops)@,
            forall|i: int| 0 <= i < old(self).redemption_keys().len() ==> {
                let op = #[trigger] final(ops)@[old(ops)@.len() + i];
                gop_key(op) == old(self).redemption_keys()[i] && gop_bytes(op) == le_encode(0, 8)
            },
            forall|i: int| 0 <= i < old(self).burial_keys().len() ==> {
                let op = #[trigger] final(ops)@[old(ops)@.len() + old(self).redemption_keys().len() + i];
                gop_key(op) == old(self).burial_keys()[i]
                    && gop_bytes(op) == le_encode(old(self)@.delta.accounts_to_bury[old(self).burial_keys()[i]@] as nat, 8)
            },
            written_over(old(self)@.buried, final(ops)@.skip(old(ops)@.len() as int)) == final(self)@.buried,
    {
        let ghost b0 = self.in_memory_buried_accounts@;
        let ghost o0 = ops@;
        let ghost red = self.delta.redemptions@;
        let ghost bur = self.delta.accounts_to_bury@;
        let ghost rk = self.delta.redemptions.raw_keys();
        let ghost bk = self.delta.accounts_to_bury.raw_keys();
        let n = self.delta.redemptions.len();
        let mut i: usize = 0;
        assert(ops@.skip(o0.len() as int) =~= Seq::<GraveyardDiskOp>::empty());
        while i < n
            invariant
                0 <= i <= n,
                n == self.delta.redemptions.key_seq().len(),
                red == self.delta.redemptions@,
                bur == self.delta.accounts_to_bury@,
                bk == self.delta.accounts_to_bury.raw_keys(),
                rk == self.delta.redemptions.raw_keys(),
                forall|x: Seq<u8>| #[trigger] self.in_memory_buried_accounts@.dom().contains(x)
                    <==> b0.dom().contains(x) || self.delta.redemptions.key_seq().subrange(0, i as int).contains(x),
                forall|x: Seq<u8>| #[trigger] self.in_memory_buried_accounts@.dom().contains(x) ==>
                    self.in_memory_buried_accounts@[x] == if self.delta.redemptions.key_seq().subrange(0, i as int).contains(x) {
                        0u64
                    } else {
                        b0[x]
                    },
                ops@.len() == o0.len() + i,
                ops@.subrange(0, o0.len() as int) == o0,
                forall|t: int| 0 <= t < i ==> {
                    let op = #[trigger] ops@[o0.len() + t];
                    gop_key(op) == rk[t] && gop_bytes(op) == le_encode(0, 8)
                },
                written_over(b0, ops@.skip(o0.len() as int)) == self.in_memory_buried_accounts@,
            decreases n - i,
        {
            let k = self.delta.redemptions.key_at(i);
            let bytes = u64_to_le_bytes(0);
            let ghost before = ops@;
            ops.push(GraveyardDiskOp::PutRedemptionAmount(k, bytes));
            self.in_memory_buried_accounts.insert(k, 0);
            proof {
                assert(ops@.skip(o0.len() as int).drop_last() =~= before.skip(o0.len() as int));
                assert(written_over(b0, ops@.skip(o0.len() as int)) =~= self.in_memory_buried_accounts@);
                let ks = self.delta.redemptions.key_seq();
                assert(ks.subrange(0, i + 1) =~= ks.subrange(0, i as int).push(k@));
                assert forall|x: Seq<u8>| ks.subrange(0, i + 1).contains(x) <==> ks.subrange(0, i as int).contains(x) || x == k@ by {
                    crate::keymap::lemma_push_contains(ks.subrange(0, i as int), k@);
                }
                assert(ops@.subrange(0, o0.len() as int) =~= o0);
            }
            i = i + 1;
        }
        let m = self.delta.accounts_to_bury.len();
        let mut j: usize = 0;
        let ghost b1 = self.in_memory_buried_accounts@;
        let ghost o1 = ops@;
        proof {
            assert(self.delta.redemptions.key_seq().subrange(0, n as int) =~= self.delta.redemptions.key_seq());
        }
        while j < m
            invariant
                0 <= j <= m,
                m == self.delta.accounts_to_bury.key_seq().len(),
                bur == self.delta.accounts_to_bury@,
                bk == self.delta.accounts_to_bury.raw_keys(),
                forall|x: Seq<u8>| #[trigger] self.in_memory_buried_accounts@.dom().contains(x)
                    <==> b1.dom().contains(x) || self.delta.accounts_to_bury.key_seq().subrange(0, j as int).contains(x),
                forall|x: Seq<u8>| #[trigger] self.in_memory_buried_accounts@.dom().contains(x) ==>
                    self.in_memory_buried_accounts@[x] == if self.delta.accounts_to_bury.key_seq().subrange(0, j as int).contains(x) {
                        bur[x]
                    } else {
                        b1[x]
                    },
                ops@.len() == o1.len() + j,
                ops@.subrange(0, o1.len() as int) == o1,
                forall|t: int| 0 <= t < j ==> {
                    let op = #[trigger] ops@[o1.len() + t];
                    gop_key(op) == bk[t] && gop_bytes(op) == le_encode(bur[bk[t]@] as nat, 8)
                },
                o1.len() >= o0.len(),
                written_over(b0, ops@.skip(o0.len() as int)) == self.in_memory_buried_accounts@,
            decreases m - j,
        {
            let k = self.delta.accounts_to_bury.key_at(j);
            let v = *self.delta.accounts_to_bury.value_at(j);
            let bytes = u64_to_le_bytes(v);
            let ghost before = ops@;
            ops.push(GraveyardDiskOp::PutRedemptionAmount(k, bytes));
            self.in_memory_buried_accounts.insert(k, v);
            proof {
                assert(ops@.skip(o0.len() as int).drop_last() =~= before.skip(o0.len() as int));
                assert(written_over(b0, ops@.skip(o0.len() as int)) =~= self.in_memory_buried_accounts@);
                let ks = self.delta.accounts_to_bury.key_seq();
                assert(ks.subrange(0, j + 1) =~= ks.subrange(0, j as int).push(k@));
                assert forall|x: Seq<u8>| ks.subrange(0, j + 1).contains(x) <==> ks.subrange(0, j as int).contains(x) || x == k@ by {
                    crate::keymap::lemma_push_contains(ks.subrange(0, j as int), k@);
                }
                assert(ops@.subrange(0, o1.len() as int) =~= o1);
            }
            j = j + 1;
        }
        proof {
            let ks = self.delta.accounts_to_bury.key_seq();
            assert(ks.subrange(0, m as int) =~= ks);
            let target = b0.union_prefer_right(red.map_values(|v: u64| 0u64)).union_prefer_right(bur);
            assert(self.in_memory_buried_accounts@ =~= target);
            assert(ops@.subrange(0, o0.len() as int) =~= o0);
            assert forall|t: int| 0 <= t < rk.len() implies {
                let op = #[trigger] ops@[o0.len() + t];
                gop_key(op) == rk[t] && gop_bytes(op) == le_encode(0, 8)
            } by {
                assert(ops@[o0.len() + t] == o1[o0.len() + t]);
            }
        }
        self.delta.flush();
        self.backup_of_delta.flush();
    }

    /// The writes that applying the changes makes, in order (redemptions first, then burials), without
    /// applying them: made over the stored buried accounts, they give the applied state.
    pub fn pending_writes(&self) -> (r: Vec<GraveyardDiskOp>)
        ensures
            written_over(self@.buried, r@) == self@.applied(),
            r@.len() == self.redemption_keys().len() + self.burial_keys().len(),
            forall|i: int| 0 <= i < r@.len() ==> gop_bytes(#[trigger] r@[i]).len() == 8,
            forall|i: int| 0 <= i < self.redemption_keys().len() ==> {
                let op = #[trigger] r@[i];
                gop_key(op) == self.redemption_keys()[i] && gop_bytes(op) == le_encode(0, 8)
            },
            forall|i: int| 0 <= i < self.burial_keys().len() ==> {
                let op = #[trigger] r@[self.redemption_keys().len() + i];
                gop_key(op) == self.burial_keys()[i]
                    && gop_bytes(op) == le_encode(self@.delta.accounts_to_bury[self.burial_keys()[i]@] as nat, 8)
            },
    {
        let mut trial = Graveyard {
            in_memory_buried_accounts: self.in_memory_buried_accounts.copy(),
            delta: self.delta.duplicate(),
            backup_of_delta: self.backup_of_delta.duplicate(),
        };
        let mut ops: Vec<GraveyardDiskOp> = Vec::new();
        let ghost o0 = ops@;
        trial.apply_changes(&mut ops);
        proof {
            assert(o0.len() == 0);
            assert(ops@.skip(0) =~= ops@);
            assert forall|i: int| 0 <= i < self.redemption_keys().len() implies {
                let op = #[trigger] ops@[i];
                gop_key(op) == self.redemption_keys()[i] && gop_bytes(op) == le_encode(0, 8)
            } by {
                assert(ops@[o0.len() + i] == ops@[i]);
            }
            assert forall|i: int| 0 <= i < self.burial_keys().len() implies {
                let op = #[trigger] ops@[self.redemption_keys().len() + i];
                gop_key(op) == self.burial_keys()[i]
                    && gop_bytes(op) == le_encode(self@.delta.accounts_to_bury[self.burial_keys()[i]@] as nat, 8)
            } by {
                assert(ops@[o0.len() + self.redemption_keys().len() + i] == ops@[self.redemption_keys().len() + i]);
            }
            assert forall|i: int| 0 <= i < ops@.len() implies gop_bytes(#[trigger] ops@[i]).len() == 8 by {
                if i < self.redemption_keys().len() {
                    lemma_le_encode_len(0, 8);
                } else {
                    let j = i - self.redemption_keys().len();
                    assert(ops@[self.redemption_keys().len() + j] == ops@[i]);
                    lemma_le_encode_len(self@.delta.accounts_to_bury[self.burial_keys()[j]@] as nat, 8);
                }
            }
        }
        ops
    }

    /// Makes the first `count` of the given writes to the permanent buried accounts, keeping the
    /// ephemeral changes and their backup.
    pub fn apply_writes(&mut self, ops: &Vec<GraveyardDiskOp>, count: usize)
        requires
            count <= ops@.len(),
            forall|i: int| 0 <= i < ops@.len() ==> gop_bytes(#[trigger] ops@[i]).len() == 8,
        ensures
            final(self)@ == (GraveyardView { buried: written_over(old(self)@.buried, ops@.subrange(0, count as int)), ..old(self)@ }),
    {
        let mut i: usize = 0;
        while i < count
            invariant
                0 <= i <= count,
                count <= ops@.len(),
                forall|t: int| 0 <= t < ops@.len() ==> gop_bytes(#[trigger] ops@[t]).len() == 8,
                self@ == (GraveyardView { buried: written_over(old(self)@.buried, ops@.subrange(0, i as int)), ..old(self)@ }),
            decreases count - i,
        {
            let ghost before = self@;
            match &ops[i] {
                GraveyardDiskOp::PutRedemptionAmount(k, bytes) => {
                    assert(gop_bytes(ops@[i as int]).len() == 8);
                    if let Some(v) = u64_from_le_bytes(bytes.as_slice()) {
                        self.in_memory_buried_accounts.insert(*k, v);
                    }
                },
            }
            proof {
                assert(ops@.subrange(0, i + 1).drop_last() =~= ops@.subrange(0, i as int));
                assert(ops@.subrange(0, i + 1).last() == ops@[i as int]);
                assert(self@ =~= (GraveyardView { buried: written_over(old(self)@.buried, ops@.subrange(0, i + 1)), ..old(self)@ }));
            }
            i = i + 1;
        }
    }

    /// Clears all ephemeral changes and their backup.
    pub fn flush_deltas(&mut self)
        ensures
            final(self)@ == (GraveyardView { delta: GraveyardDeltaView::empty(), backup: GraveyardDeltaView::empty(), ..old(self)@ }),
    {
        self.delta.flush();
        self.backup_of_delta.flush();
    }

    /// The permanently buried accounts with the amounts owed to them, in insertion order.
    pub fn buried_accounts(&self) -> (r: Vec<(Key, u64)>)
        ensures
            r@.len() == self@.buried.dom().len(),
            forall|i: int| 0 <= i < r@.len() ==> self@.buried.dom().contains((#[trigger] r@[i]).0@)
                && self@.buried[r@[i].0@] == r@[i].1,
            forall|k: Seq<u8>| self@.buried.dom().contains(k) ==> exists|i: int| 0 <= i < r@.len() && (#[trigger] r@[i]).0@ == k,
    {
        let mut r: Vec<(Key, u64)> = Vec::new();
        let n = self.in_memory_buried_accounts.len();
        let mut i: usize = 0;
        while i < n
            invariant
                0 <= i <= n,
                n == self.in_memory_buried_accounts.key_seq().len(),
                forall|x: Seq<u8>| self@.buried.dom().contains(x) <==> self.in_memory_buried_accounts.key_seq().contains(x),
                r@.len() == i,
                forall|t: int| 0 <= t < i ==> (#[trigger] r@[t]).0@ == self.in_memory_buried_accounts.key_seq()[t]
                    && self@.buried[r@[t].0@] == r@[t].1,
            decreases n - i,
        {
            let k = self.in_memory_buried_accounts.key_at(i);
            let v = *self.in_memory_buried_accounts.value_at(i);
            r.push((k, v));
            i = i + 1;
        }
        proof {
            assert forall|k: Seq<u8>| self@.buried.dom().contains(k) implies exists|t: int| 0 <= t < r@.len() && (#[trigger] r@[t]).0@ == k by {
                assert(self.in_memory_buried_accounts.key_seq().contains(k));
                let t = choose|t: int| 0 <= t < self.in_memory_buried_accounts.key_seq().len() && self.in_memory_buried_accounts.key_seq()[t] == k;
                assert(r@[t].0@ == k);
            }
            assert forall|t: int| 0 <= t < r@.len() implies self@.buried.dom().contains((#[trigger] r@[t]).0@) by {
                assert(self.in_memory_buried_accounts.key_seq().contains(r@[t].0@));
            }
        }
        r
    }
}

} // verus!
