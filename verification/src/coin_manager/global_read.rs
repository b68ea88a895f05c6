use super::coin_manager::{deferred_sum, signed_share, CoinManagerView};
use super::delta::space_map_view;
use super::shadow_space::{deferred_applies, deferred_share, ShadowSpace, ShadowSpaceView};
use crate::keymap::{key_views, Key};
use vstd::prelude::*;

verus! {

/// The signed amount by which a shadow space's deferred change moves an account's allocation, in
/// sati-satoshis: positive for an up-all, negative for a down-all, zero without an allocation.
pub open spec fn space_share(sp: ShadowSpaceView, a: Seq<u8>) -> int {
    if sp.allocs.dom().contains(a) {
        let s = deferred_share(sp.allocs[a], sp.deferred, sp.allocs_sum);
        if sp.deferred > 0 {
            s
        } else {
            -s
        }
    } else {
        0
    }
}

/// The total of an account's shares in the listed shadow spaces.
pub open spec fn shares_over(spaces: Map<Seq<u8>, ShadowSpaceView>, ks: Seq<Seq<u8>>, a: Seq<u8>) -> int
    decreases ks.len(),
{
    if ks.len() == 0 {
        0
    } else {
        shares_over(spaces, ks.drop_last(), a) + space_share(spaces[ks.last()], a)
    }
}

/// A listing of a set: each of its elements once.
pub open spec fn lists_once(ks: Seq<Seq<u8>>, s: Set<Seq<u8>>) -> bool {
    ks.no_duplicates() && ks.to_set() == s
}

/// The total by which the deferred changes of all the shadow spaces move an account's allocations,
/// in sati-satoshis; it does not depend on the order in which the spaces are taken.
pub open spec fn deferred_total(spaces: Map<Seq<u8>, ShadowSpaceView>, a: Seq<u8>) -> int {
    shares_over(spaces, choose|ks: Seq<Seq<u8>>| lists_once(ks, spaces.dom()), a)
}

impl CoinManagerView {
    /// An account's global shadow allocs sum with every deferred change taken into account, in
    /// sati-satoshis; `None` for an account that is not registered.
    pub open spec fn global_sum_read(self, a: Seq<u8>) -> Option<int> {
        match self.base_global_sum(a) {
            Some(b) => Some(b + deferred_total(self.delta.updated_shadow_spaces, a)),
            None => None,
        }
    }
}

/// Every finite set has a listing.
pub proof fn lemma_listing_exists(s: Set<Seq<u8>>) -> (ks: Seq<Seq<u8>>)
    requires
        s.finite(),
    ensures
        lists_once(ks, s),
    decreases s.len(),
{
    if s.len() == 0 {
        assert(s =~= Set::<Seq<u8>>::empty());
        let ks = Seq::<Seq<u8>>::empty();
        assert(ks.to_set() =~= s);
        ks
    } else {
        let x = s.choose();
        assert(s.contains(x));
        let r = lemma_listing_exists(s.remove(x));
        let ks = r.push(x);
        assert(!r.contains(x)) by {
            if r.contains(x) {
                assert(r.to_set().contains(x));
            }
        }
        assert forall|i: int, j: int| 0 <= i < ks.len() && 0 <= j < ks.len() && i != j implies ks[i] != ks[j] by {
            if i < r.len() && j < r.len() {
                assert(ks[i] == r[i] && ks[j] == r[j]);
            } else if i < r.len() {
                assert(ks[i] == r[i] && r.contains(r[i]));
            } else if j < r.len() {
                assert(ks[j] == r[j] && r.contains(r[j]));
            }
        }
        assert forall|y: Seq<u8>| ks.to_set().contains(y) <==> s.contains(y) by {
            if ks.to_set().contains(y) {
                let i = choose|i: int| 0 <= i < ks.len() && ks[i] == y;
                if i < r.len() {
                    assert(r[i] == y);
                    assert(r.to_set().contains(y));
                }
            }
            if s.contains(y) && y != x {
                assert(r.to_set().contains(y));
                let i = choose|i: int| 0 <= i < r.len() && r[i] == y;
                assert(ks[i] == y);
            }
            if y == x {
                assert(ks[ks.len() - 1] == x);
            }
        }
        assert(ks.to_set() =~= s);
        ks
    }
}

/// Taking one space out of a listing takes its share out of the total.
pub proof fn lemma_shares_remove(spaces: Map<Seq<u8>, ShadowSpaceView>, ks: Seq<Seq<u8>>, j: int, a: Seq<u8>)
    requires
        0 <= j < ks.len(),
    ensures
        shares_over(spaces, ks, a) == shares_over(spaces, ks.remove(j), a) + space_share(spaces[ks[j]], a),
    decreases ks.len(),
{
    if j == ks.len() - 1 {
        assert(ks.remove(j) =~= ks.drop_last());
    } else {
        let d = ks.drop_last();
        lemma_shares_remove(spaces, d, j, a);
        assert(ks.remove(j).drop_last() =~= d.remove(j));
        assert(ks.remove(j).last() == ks.last());
        assert(d[j] == ks[j]);
    }
}

/// The total over two listings of the same spaces is the same.
pub proof fn lemma_shares_order(spaces: Map<Seq<u8>, ShadowSpaceView>, k1: Seq<Seq<u8>>, k2: Seq<Seq<u8>>, a: Seq<u8>)
    requires
        k1.no_duplicates(),
        k2.no_duplicates(),
        k1.to_set() == k2.to_set(),
    ensures
        shares_over(spaces, k1, a) == shares_over(spaces, k2, a),
    decreases k1.len(),
{
    if k1.len() == 0 {
        if k2.len() > 0 {
            assert(k2.to_set().contains(k2[0]));
            assert(k1.to_set().contains(k2[0]));
        }
    } else {
        let x = k1.last();
        assert(k1.to_set().contains(x)) by {
            assert(k1[k1.len() - 1] == x);
        }
        assert(k2.to_set().contains(x));
        let j = choose|j: int| 0 <= j < k2.len() && k2[j] == x;
        let k1d = k1.drop_last();
        let k2r = k2.remove(j);
        k2.remove_ensures(j);
        assert forall|i: int, l: int| 0 <= i < k2r.len() && 0 <= l < k2r.len() && i != l implies k2r[i] != k2r[l] by {
            let ii = if i < j { i } else { i + 1 };
            let ll = if l < j { l } else { l + 1 };
            assert(k2r[i] == k2[ii] && k2r[l] == k2[ll]);
        }
        assert forall|i: int, l: int| 0 <= i < k1d.len() && 0 <= l < k1d.len() && i != l implies k1d[i] != k1d[l] by {
            assert(k1d[i] == k1[i] && k1d[l] == k1[l]);
        }
        assert forall|y: Seq<u8>| k1d.to_set().contains(y) <==> k2r.to_set().contains(y) by {
            if k1d.to_set().contains(y) {
                let i = choose|i: int| 0 <= i < k1d.len() && k1d[i] == y;
                assert(k1[i] == y);
                assert(y != x);
                assert(k1.to_set().contains(y));
                assert(k2.to_set().contains(y));
                let l = choose|l: int| 0 <= l < k2.len() && k2[l] == y;
                assert(l != j);
                if l < j {
                    assert(k2r[l] == y);
                } else {
                    assert(k2r[l - 1] == y);
                }
            }
            if k2r.to_set().contains(y) {
                let i = choose|i: int| 0 <= i < k2r.len() && k2r[i] == y;
                let ii = if i < j { i } else { i + 1 };
                assert(k2[ii] == y);
                assert(ii != j);
                assert(y != x);
                assert(k2.to_set().contains(y));
                assert(k1.to_set().contains(y));
                let l = choose|l: int| 0 <= l < k1.len() && k1[l] == y;
                assert(l != k1.len() - 1);
                assert(k1d[l] == y);
            }
        }
        assert(k1d.to_set() =~= k2r.to_set());
        lemma_shares_order(spaces, k1d, k2r, a);
        lemma_shares_remove(spaces, k2, j, a);
    }
}

/// The total over any listing of all the spaces is their deferred total.
pub proof fn lemma_total_is(spaces: Map<Seq<u8>, ShadowSpaceView>, ks: Seq<Seq<u8>>, a: Seq<u8>)
    requires
        lists_once(ks, spaces.dom()),
    ensures
        deferred_total(spaces, a) == shares_over(spaces, ks, a),
{
    let c = choose|k: Seq<Seq<u8>>| lists_once(k, spaces.dom());
    assert(lists_once(c, spaces.dom()));
    lemma_shares_order(spaces, c, ks, a);
}

/// Totals over spaces that give an account the same share, space by space, are the same.
pub proof fn lemma_shares_pointwise(
    s1: Map<Seq<u8>, ShadowSpaceView>,
    s2: Map<Seq<u8>, ShadowSpaceView>,
    ks: Seq<Seq<u8>>,
    a: Seq<u8>,
)
    requires
        forall|i: int| 0 <= i < ks.len() ==> space_share(s1[#[trigger] ks[i]], a) == space_share(s2[ks[i]], a),
    ensures
        shares_over(s1, ks, a) == shares_over(s2, ks, a),
    decreases ks.len(),
{
    if ks.len() > 0 {
        let d = ks.drop_last();
        assert forall|i: int| 0 <= i < d.len() implies space_share(s1[#[trigger] d[i]], a) == space_share(s2[d[i]], a) by {
            assert(d[i] == ks[i]);
        }
        lemma_shares_pointwise(s1, s2, d, a);
        assert(ks.last() == ks[ks.len() - 1]);
    }
}

/// The running total over the spaces as held equals the total over their views.
pub proof fn lemma_exec_shares(spaces: Map<Seq<u8>, ShadowSpace>, keys: Seq<Key>, a: Seq<u8>)
    requires
        forall|i: int| 0 <= i < keys.len() ==> spaces.dom().contains(#[trigger] keys[i]@),
    ensures
        deferred_sum(spaces, keys, a) == shares_over(space_map_view(spaces), key_views(keys), a),
    decreases keys.len(),
{
    if keys.len() > 0 {
        let d = keys.drop_last();
        assert forall|i: int| 0 <= i < d.len() implies spaces.dom().contains(#[trigger] d[i]@) by {
            assert(d[i] == keys[i]);
        }
        lemma_exec_shares(spaces, d, a);
        assert(key_views(keys).drop_last() =~= key_views(d));
        assert(key_views(keys).last() == keys.last()@);
        assert(spaces.dom().contains(keys[keys.len() - 1]@));
        let sp = spaces[keys.last()@];
        assert(space_map_view(spaces)[keys.last()@] == sp@);
        assert(signed_share(sp, a) == space_share(sp@, a));
    }
}

/// A space without a deferred change moves no allocation.
pub proof fn lemma_no_deferred_no_share(sp: ShadowSpaceView, a: Seq<u8>)
    requires
        sp.deferred == 0,
    ensures
        space_share(sp, a) == 0,
{
    assert(!deferred_applies(sp.deferred, sp.allocs_sum));
}

/// Replacing or adding one shadow space, when neither the old nor the new one moves an account's
/// allocation, leaves the account's deferred total as it was.
pub proof fn lemma_total_replace(spaces: Map<Seq<u8>, ShadowSpaceView>, c: Seq<u8>, sp: ShadowSpaceView, a: Seq<u8>)
    requires
        spaces.dom().finite(),
        space_share(sp, a) == 0,
        spaces.dom().contains(c) ==> space_share(spaces[c], a) == 0,
    ensures
        deferred_total(spaces.insert(c, sp), a) == deferred_total(spaces, a),
{
    let t = spaces.insert(c, sp);
    let ks = lemma_listing_exists(spaces.dom());
    lemma_total_is(spaces, ks, a);
    if spaces.dom().contains(c) {
        assert(t.dom() =~= spaces.dom());
        assert forall|i: int| 0 <= i < ks.len() implies space_share(t[#[trigger] ks[i]], a) == space_share(spaces[ks[i]], a) by {
            assert(ks.to_set().contains(ks[i]));
        }
        lemma_shares_pointwise(t, spaces, ks, a);
        lemma_total_is(t, ks, a);
    } else {
        let ks2 = ks.push(c);
        assert(!ks.contains(c)) by {
            if ks.contains(c) {
                assert(ks.to_set().contains(c));
            }
        }
        assert forall|i: int, j: int| 0 <= i < ks2.len() && 0 <= j < ks2.len() && i != j implies ks2[i] != ks2[j] by {
            if i < ks.len() && j < ks.len() {
                assert(ks2[i] == ks[i] && ks2[j] == ks[j]);
            } else if i < ks.len() {
                assert(ks2[i] == ks[i] && ks.contains(ks[i]));
            } else if j < ks.len() {
                assert(ks2[j] == ks[j] && ks.contains(ks[j]));
            }
        }
        assert forall|y: Seq<u8>| ks2.to_set().contains(y) <==> t.dom().contains(y) by {
            if ks2.to_set().contains(y) {
                let i = choose|i: int| 0 <= i < ks2.len() && ks2[i] == y;
                if i < ks.len() {
                    assert(ks[i] == y);
                    assert(ks.to_set().contains(y));
                }
            }
            if t.dom().contains(y) && y != c {
                assert(ks.to_set().contains(y));
                let i = choose|i: int| 0 <= i < ks.len() && ks[i] == y;
                assert(ks2[i] == y);
            }
            if y == c {
                assert(ks2[ks2.len() - 1] == c);
            }
        }
        assert(ks2.to_set() =~= t.dom());
        assert forall|i: int| 0 <= i < ks.len() implies space_share(t[#[trigger] ks[i]], a) == space_share(spaces[ks[i]], a) by {
            assert(ks.contains(ks[i]));
        }
        lemma_shares_pointwise(t, spaces, ks, a);
        assert(ks2.drop_last() =~= ks);
        lemma_total_is(t, ks2, a);
    }
}

/// A shadow up or down on a contract whose shadow space holds no deferred change moves the
/// account's global shadow allocs sum, as read with every deferred change, by exactly the amount
/// moved, in sati-satoshis.
pub proof fn law_shadow_up_down_global_read(s: CoinManagerView, c: Key, a: Key, amount: u64)
    requires
        s.delta.updated_shadow_spaces.dom().finite(),
        s.space(c@) matches Some(sp) && sp.deferred == 0,
    ensures
        s.shadow_up_safe(c, a, amount) && s.shadow_up(c, a, amount).1 is Ok ==> {
            &&& s.global_sum_read(a@) is Some
            &&& s.shadow_up(c, a, amount).0.global_sum_read(a@) == Some(s.global_sum_read(a@)->Some_0 + amount * 100_000_000)
        },
        s.shadow_down(c, a, amount).1 is Ok ==> {
            &&& s.global_sum_read(a@) is Some
            &&& s.shadow_down(c, a, amount).0.global_sum_read(a@) == Some(s.global_sum_read(a@)->Some_0 - amount * 100_000_000)
        },
{
    let sp = s.space(c@)->Some_0;
    lemma_no_deferred_no_share(sp, a@);
    let spaces = s.delta.updated_shadow_spaces;
    if spaces.dom().contains(c@) {
        assert(spaces[c@] == sp);
    }
    let up = s.shadow_up(c, a, amount);
    if s.shadow_up_safe(c, a, amount) && up.1 is Ok {
        let v = s.base_alloc(c@, a@)->Some_0;
        let sp2 = ShadowSpaceView {
            allocs_sum: (sp.allocs_sum + amount) as u64,
            allocs: sp.allocs.insert(a@, (v + (amount * 100_000_000) as u128) as u128),
            ..sp
        };
        lemma_no_deferred_no_share(sp2, a@);
        assert(up.0.delta.updated_shadow_spaces == spaces.insert(c@, sp2));
        lemma_total_replace(spaces, c@, sp2, a@);
    }
    let down = s.shadow_down(c, a, amount);
    if down.1 is Ok {
        let v = s.base_alloc(c@, a@)->Some_0;
        let sp2 = ShadowSpaceView {
            allocs_sum: (sp.allocs_sum - amount) as u64,
            allocs: sp.allocs.insert(a@, (v - (amount * 100_000_000) as u128) as u128),
            ..sp
        };
        lemma_no_deferred_no_share(sp2, a@);
        assert(down.0.delta.updated_shadow_spaces == spaces.insert(c@, sp2));
        lemma_total_replace(spaces, c@, sp2, a@);
    }
}

} // verus!
