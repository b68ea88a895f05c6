use crate::keymap::{Key, KeyMap};
use vstd::prelude::*;

verus! {

/// One satoshi expressed in sati-satoshis.
pub const ONE_SATOSHI_IN_SATI_SATOSHIS: u128 = 100_000_000;

/// The abstract content of a shadow space.
#[verifier::ext_equal]
pub struct ShadowSpaceView {
    /// Total allocated value of the space, in satoshis.
    pub allocs_sum: u64,
    /// Allocated value of each account, in sati-satoshis.
    pub allocs: Map<Seq<u8>, u128>,
    /// Accumulated proportional change not yet distributed, in satoshis.
    pub deferred: i64,
}

/// A shadow space of a contract: how much of the contract's balance each account is allocated.
pub struct ShadowSpace {
    /// Total allocated value of the entire shadow space, in satoshis.
    pub allocs_sum: u64,
    /// Allocated value of each account, in sati-satoshis.
    pub allocs: KeyMap<u128>,
    /// Accumulated deferred proportional change of up-all (positive) and down-all (negative) operations, in satoshis.
    pub shadow_up_all_down_alls: i64,
}

impl View for ShadowSpace {
    type V = ShadowSpaceView;

    open spec fn view(&self) -> ShadowSpaceView {
        ShadowSpaceView {
            allocs_sum: self.allocs_sum,
            allocs: self.allocs@,
            deferred: self.shadow_up_all_down_alls,
        }
    }
}

/// The allocs sum before the deferred change was added to it.
pub open spec fn base_allocs_sum(allocs_sum: u64, deferred: i64) -> u64 {
    ((allocs_sum as i64) - deferred) as u64
}

/// The absolute value of a deferred change.
pub open spec fn abs_i64(d: i64) -> int {
    if d < 0 {
        -d
    } else {
        d as int
    }
}

/// The part of a deferred change that falls to an allocation, before clamping, in sati-satoshis.
pub open spec fn raw_share(base_alloc: u128, deferred: i64, allocs_sum: u64) -> int {
    (base_alloc * (abs_i64(deferred) * 100_000_000)) / (base_allocs_sum(allocs_sum, deferred) * 100_000_000)
}

/// Whether the deferred change applies at all: it is nonzero and its base sum is nonzero.
pub open spec fn deferred_applies(deferred: i64, allocs_sum: u64) -> bool {
    deferred != 0 && base_allocs_sum(allocs_sum, deferred) != 0
}

/// The amount by which the deferred change moves an allocation, in sati-satoshis.
pub open spec fn deferred_share(base_alloc: u128, deferred: i64, allocs_sum: u64) -> int {
    if !deferred_applies(deferred, allocs_sum) {
        0
    } else if deferred > 0 {
        raw_share(base_alloc, deferred, allocs_sum)
    } else if raw_share(base_alloc, deferred, allocs_sum) < base_alloc {
        raw_share(base_alloc, deferred, allocs_sum)
    } else {
        base_alloc as int
    }
}

/// An allocation after its share of the deferred change is applied.
pub open spec fn deferred_value(base_alloc: u128, deferred: i64, allocs_sum: u64) -> int {
    if deferred > 0 {
        base_alloc + deferred_share(base_alloc, deferred, allocs_sum)
    } else {
        base_alloc - deferred_share(base_alloc, deferred, allocs_sum)
    }
}

/// The arithmetic of applying a deferred change to an allocation stays in range.
pub open spec fn deferred_computable(base_alloc: u128, deferred: i64, allocs_sum: u64) -> bool {
    deferred != 0 ==> {
        &&& i64::MIN <= (allocs_sum as i64) - deferred <= i64::MAX
        &&& deferred != i64::MIN
        &&& base_allocs_sum(allocs_sum, deferred) != 0 ==> {
            &&& base_alloc * (abs_i64(deferred) * 100_000_000) <= u128::MAX
            &&& deferred_value(base_alloc, deferred, allocs_sum) <= u128::MAX
        }
    }
}

/// Whether applying a space's deferred change to one allocation stays in range.
pub fn deferred_in_range(base_alloc: u128, deferred: i64, allocs_sum: u64) -> (r: bool)
    ensures
        r == deferred_computable(base_alloc, deferred, allocs_sum),
{
    if deferred == 0 {
        return true;
    }
    let s: i64 = allocs_sum as i64;
    let diff: i128 = (s as i128) - (deferred as i128);
    if diff < (i64::MIN as i128) || diff > (i64::MAX as i128) {
        return false;
    }
    if deferred == i64::MIN {
        return false;
    }
    let base_sum: u64 = (diff as i64) as u64;
    proof {
        assert(base_sum == base_allocs_sum(allocs_sum, deferred));
    }
    if base_sum == 0 {
        return true;
    }
    let abs_deferred: u64 = if deferred < 0 {
        (-deferred) as u64
    } else {
        deferred as u64
    };
    let change_sati: u128 = (abs_deferred as u128) * ONE_SATOSHI_IN_SATI_SATOSHIS;
    proof {
        assert(abs_deferred == abs_i64(deferred));
        assert(change_sati == abs_i64(deferred) * 100_000_000);
    }
    match base_alloc.checked_mul(change_sati) {
        None => false,
        Some(prod) => {
            let base_sum_sati: u128 = (base_sum as u128) * ONE_SATOSHI_IN_SATI_SATOSHIS;
            let raw: u128 = prod / base_sum_sati;
            proof {
                assert(raw == raw_share(base_alloc, deferred, allocs_sum));
            }
            if deferred > 0 {
                base_alloc.checked_add(raw).is_some()
            } else {
                true
            }
        },
    }
}

/// Applies a space's deferred change to one allocation; returns the new value and the amount moved.
pub fn apply_deferred_change(base_alloc: u128, deferred: i64, allocs_sum: u64) -> (r: (u128, u128))
    requires
        deferred_computable(base_alloc, deferred, allocs_sum),
    ensures
        r.0 == deferred_value(base_alloc, deferred, allocs_sum),
        r.1 == deferred_share(base_alloc, deferred, allocs_sum),
{
    if deferred == 0 {
        return (base_alloc, 0);
    }
    let base_sum: u64 = ((allocs_sum as i64) - deferred) as u64;
    if base_sum == 0 {
        return (base_alloc, 0);
    }
    let base_sum_sati: u128 = (base_sum as u128) * ONE_SATOSHI_IN_SATI_SATOSHIS;
    let abs_deferred: u64 = if deferred < 0 {
        (-deferred) as u64
    } else {
        deferred as u64
    };
    let change_sati: u128 = (abs_deferred as u128) * ONE_SATOSHI_IN_SATI_SATOSHIS;
    let raw: u128 = (base_alloc * change_sati) / base_sum_sati;
    if deferred > 0 {
        (base_alloc + raw, raw)
    } else {
        let share = if raw < base_alloc {
            raw
        } else {
            base_alloc
        };
        (base_alloc - share, share)
    }
}

impl ShadowSpace {
    /// Constructs an empty shadow space.
    pub fn fresh_new() -> (r: Self)
        ensures
            r@ == (ShadowSpaceView { allocs_sum: 0, allocs: Map::empty(), deferred: 0 }),
    {
        ShadowSpace { allocs_sum: 0, allocs: KeyMap::new(), shadow_up_all_down_alls: 0 }
    }

    /// Constructs a shadow space from its allocs sum and allocations, with no deferred change.
    pub fn new(allocs_sum: u64, allocs: KeyMap<u128>) -> (r: Self)
        ensures
            r@ == (ShadowSpaceView { allocs_sum, allocs: allocs@, deferred: 0 }),
            r.allocs.raw_keys() == allocs.raw_keys(),
    {
        ShadowSpace { allocs_sum, allocs, shadow_up_all_down_alls: 0 }
    }

    /// Updates the allocations sum.
    pub fn update_allocs_sum(&mut self, new_value: u64)
        ensures
            final(self)@ == (ShadowSpaceView { allocs_sum: new_value, ..old(self)@ }),
            final(self).allocs.raw_keys() == old(self).allocs.raw_keys(),
    {
        self.allocs_sum = new_value;
    }

    /// Inserts or updates an allocation.
    pub fn insert_update_alloc(&mut self, account_key: Key, alloc_value: u128)
        ensures
            final(self)@ == (ShadowSpaceView {
                allocs: old(self)@.allocs.insert(account_key@, alloc_value),
                ..old(self)@
            }),
            old(self)@.allocs.dom().contains(account_key@) ==> final(self).allocs.raw_keys() == old(self).allocs.raw_keys(),
    {
        self.allocs.insert(account_key, alloc_value);
    }

    /// Removes an allocation; returns whether it was present.
    pub fn remove_alloc(&mut self, account_key: Key) -> (r: bool)
        ensures
            final(self)@ == (ShadowSpaceView {
                allocs: old(self)@.allocs.remove(account_key@),
                ..old(self)@
            }),
            r == old(self)@.allocs.dom().contains(account_key@),
    {
        match self.allocs.remove(&account_key) {
            Some(_) => true,
            None => false,
        }
    }

    /// Adds a deferred proportional change: positive for up-all, negative for down-all operations.
    pub fn add_deferred_proportional_change(&mut self, change_in_satoshis: i64)
        requires
            i64::MIN <= old(self).shadow_up_all_down_alls + change_in_satoshis <= i64::MAX,
        ensures
            final(self)@ == (ShadowSpaceView {
                deferred: (old(self)@.deferred + change_in_satoshis) as i64,
                ..old(self)@
            }),
            final(self).allocs.raw_keys() == old(self).allocs.raw_keys(),
    {
        self.shadow_up_all_down_alls = self.shadow_up_all_down_alls + change_in_satoshis;
    }

    /// Clears the deferred proportional change.
    pub fn clear_deferred_proportional_change(&mut self)
        ensures
            final(self)@ == (ShadowSpaceView { deferred: 0, ..old(self)@ }),
            final(self).allocs.raw_keys() == old(self).allocs.raw_keys(),
    {
        self.shadow_up_all_down_alls = 0;
    }

    /// A copy of the shadow space.
    pub fn duplicate(&self) -> (r: Self)
        ensures
            r@ == self@,
            r.allocs.raw_keys() == self.allocs.raw_keys(),
    {
        ShadowSpace {
            allocs_sum: self.allocs_sum,
            allocs: self.allocs.copy(),
            shadow_up_all_down_alls: self.shadow_up_all_down_alls,
        }
    }
}

} // verus!
