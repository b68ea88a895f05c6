use super::apply_spec::{
    coingap, has_expired, indexed_value, not_height, op_view, ops_view, pruned, prune_ops, put_flame_ops,
    registered, registration_ops, remove_flame_ops, set_height, set_value, update_ops, updates_applied,
    flame_db_key, FMDiskOp, FMDiskOpView, SetView,
};
use super::delta::{config_map_view, config_opt_copy, new_accounts_view};
use super::flame::{Flame, FlameView};
use super::flame_config::FMAccountFlameConfig;
use super::flame_manager::{indexed_copy, indexed_view, set_view, sets_view, AccountFlameSet, IndexedFlame};
use crate::codec::{le_encode, u32_to_le_bytes, u64_to_le_bytes, lemma_le_encode_len};
use crate::keymap::{key_views, keys_contain, Key, KeyMap};
use crate::coin_manager::delta::dedup_append;
use vstd::prelude::*;

verus! {

/// The keys of new account registrations.
pub open spec fn new_keys(new: Seq<(Key, Option<FMAccountFlameConfig>)>) -> Seq<Key> {
    new.map_values(|e: (Key, Option<FMAccountFlameConfig>)| e.0)
}

/// Registers new accounts: each gets its configuration if it has one, and an empty flame set.
pub fn register_new(
    configs: &mut KeyMap<FMAccountFlameConfig>,
    sets: &mut KeyMap<AccountFlameSet>,
    new: &Vec<(Key, Option<FMAccountFlameConfig>)>,
    ops: &mut Vec<FMDiskOp>,
)
    ensures
        (config_map_view(final(configs)@), sets_view(final(sets)@))
            == registered(config_map_view(old(configs)@), sets_view(old(sets)@), new_accounts_view(new@)),
        final(sets).raw_keys() == dedup_append(old(sets).raw_keys(), new_keys(new@)),
        ops_view(final(ops)@) == ops_view(old(ops)@) + registration_ops(new_accounts_view(new@)),
{
    let ghost c0 = config_map_view(configs@);
    let ghost s0 = sets_view(sets@);
    let ghost o0 = ops_view(ops@);
    let ghost nv = new_accounts_view(new@);
    let n = new.len();
    let mut i: usize = 0;
    while i < n
        invariant
            0 <= i <= n,
            n == new@.len(),
            nv == new_accounts_view(new@),
            c0 == config_map_view(old(configs)@),
            s0 == sets_view(old(sets)@),
            o0 == ops_view(old(ops)@),
            (config_map_view(configs@), sets_view(sets@)) == registered(c0, s0, nv.subrange(0, i as int)),
            ops_view(ops@) == o0 + registration_ops(nv.subrange(0, i as int)),
            sets.raw_keys() == dedup_append(old(sets).raw_keys(), new_keys(new@).subrange(0, i as int)),
        decreases n - i,
    {
        let k = new[i].0;
        proof {
            let nk = new_keys(new@);
            assert(nk.subrange(0, i + 1).drop_last() =~= nk.subrange(0, i as int));
            assert(nk.subrange(0, i + 1).last() == k);
            let cur = *sets;
            cur.lemma_dom_keys();
            assert(cur@.dom().contains(k@) <==> cur.key_seq().contains(k@));
        }
        proof {
            assert(nv.subrange(0, i + 1).drop_last() =~= nv.subrange(0, i as int));
            assert(nv.subrange(0, i + 1).last() == nv[i as int]);
        }
        let ghost before_c = configs@;
        let ghost before_s = sets@;
        let ghost before_o = ops_view(ops@);
        match &new[i].1 {
            Some(c) => {
                let bytes = c.to_db_value_bytes();
                ops.push(FMDiskOp::PutFlameConfig(k, bytes));
                let cc = c.duplicate();
                let ghost cv = cc@;
                configs.insert(k, cc);
                proof {
                    assert(config_map_view(configs@) =~= config_map_view(before_c).insert(k@, cv));
                    assert(ops_view(ops@) =~= before_o + seq![FMDiskOpView::PutFlameConfig(k@, super::flame_config::config_encode(cv))]);
                }
            },
            None => {
                proof {
                    assert(ops_view(ops@) =~= before_o + Seq::<FMDiskOpView>::empty());
                }
            },
        }
        let empty: AccountFlameSet = Vec::new();
        proof {
            assert(set_view(empty@) =~= Seq::<(u64, Seq<(u32, FlameView)>)>::empty());
        }
        sets.insert(k, empty);
        proof {
            assert(sets_view(sets@) =~= sets_view(before_s).insert(k@, Seq::<(u64, Seq<(u32, FlameView)>)>::empty()));
            assert(ops_view(ops@) =~= o0 + registration_ops(nv.subrange(0, i + 1)));
        }
        i = i + 1;
    }
    proof {
        assert(nv.subrange(0, n as int) =~= nv);
        assert(new_keys(new@).subrange(0, n as int)
            =~= new_keys(new@));
    }
}

/// Stores updated configurations, key by key; fails on the first account without a permanent
/// configuration.
pub fn apply_updates(configs: &mut KeyMap<FMAccountFlameConfig>, upd: &KeyMap<FMAccountFlameConfig>, ops: &mut Vec<FMDiskOp>) -> (r: Result<(), Key>)
    ensures
        match updates_applied(config_map_view(old(configs)@), upd.raw_keys(), config_map_view(upd@)) {
            Ok(c) => r is Ok && config_map_view(final(configs)@) == c
                && ops_view(final(ops)@) == ops_view(old(ops)@) + update_ops(upd.raw_keys(), config_map_view(upd@)),
            Err(k) => r == Err::<(), Key>(k) && exists|i: int| {
                &&& 0 <= i < upd.raw_keys().len()
                &&& upd.raw_keys()[i] == k
                &&& updates_applied(config_map_view(old(configs)@), upd.raw_keys().subrange(0, i), config_map_view(upd@))
                    == Ok::<_, Key>(config_map_view(final(configs)@))
                &&& !config_map_view(final(configs)@).dom().contains(k@)
                &&& ops_view(final(ops)@) == ops_view(old(ops)@) + update_ops(upd.raw_keys().subrange(0, i), config_map_view(upd@))
            },
        },
{
    let ghost keys = upd.raw_keys();
    let ghost c0 = config_map_view(configs@);
    let ghost o0 = ops_view(ops@);
    let ghost m = config_map_view(upd@);
    let n = upd.len();
    let mut i: usize = 0;
    while i < n
        invariant
            0 <= i <= n,
            n == upd.key_seq().len(),
            keys == upd.raw_keys(),
            m == config_map_view(upd@),
            c0 == config_map_view(old(configs)@),
            o0 == ops_view(old(ops)@),
            updates_applied(c0, keys.subrange(0, i as int), m) == Ok::<_, Key>(config_map_view(configs@)),
            ops_view(ops@) == o0 + update_ops(keys.subrange(0, i as int), m),
        decreases n - i,
    {
        let k = upd.key_at(i);
        let c = upd.value_at(i);
        proof {
            assert(keys.subrange(0, i + 1).drop_last() =~= keys.subrange(0, i as int));
            assert(keys.subrange(0, i + 1).last() == k);
        }
        if !configs.contains_key(&k) {
            proof {
                lemma_updates_err(c0, keys, i + 1, m);
                assert(keys[i as int] == k);
                assert(!config_map_view(configs@).dom().contains(k@));
            }
            return Err(k);
        }
        let bytes = c.to_db_value_bytes();
        let ghost before_o = ops_view(ops@);
        ops.push(FMDiskOp::PutFlameConfig(k, bytes));
        let ghost before_c = configs@;
        let cc = c.duplicate();
        let ghost cv = cc@;
        configs.insert(k, cc);
        proof {
            assert(config_map_view(configs@) =~= config_map_view(before_c).insert(k@, cv));
            assert(ops_view(ops@) =~= before_o.push(FMDiskOpView::PutFlameConfig(k@, super::flame_config::config_encode(cv))));
        }
        i = i + 1;
    }
    proof {
        assert(keys.subrange(0, n as int) =~= keys);
    }
    Ok(())
}

/// A failure of storing updates on a prefix of the keys is the failure on all of them.
pub proof fn lemma_updates_err(c: Map<Seq<u8>, Seq<Option<super::flame_config::TierView>>>, keys: Seq<Key>, i: int, m: Map<Seq<u8>, Seq<Option<super::flame_config::TierView>>>)
    requires
        0 <= i <= keys.len(),
        updates_applied(c, keys.subrange(0, i), m) is Err,
    ensures
        updates_applied(c, keys, m) == updates_applied(c, keys.subrange(0, i), m),
    decreases keys.len() - i,
{
    if i < keys.len() {
        assert(keys.subrange(0, i + 1).drop_last() =~= keys.subrange(0, i));
        lemma_updates_err(c, keys, i + 1, m);
    } else {
        assert(keys.subrange(0, i) =~= keys);
    }
}

/// Whether a flame set holds flames projected at or below the expiry height.
pub fn set_has_expired(set: &AccountFlameSet, expiry: u64) -> (r: bool)
    ensures
        r == has_expired(set_view(set@), expiry),
{
    let n = set.len();
    let mut i: usize = 0;
    while i < n
        invariant
            0 <= i <= n,
            n == set@.len(),
            forall|j: int| 0 <= j < i ==> (#[trigger] set@[j]).0 > expiry,
        decreases n - i,
    {
        if set[i].0 <= expiry {
            proof {
                assert(set_view(set@)[i as int].0 <= expiry);
            }
            return true;
        }
        i = i + 1;
    }
    proof {
        assert forall|j: int| 0 <= j < set_view(set@).len() implies (#[trigger] set_view(set@)[j]).0 > expiry by {
            assert(set_view(set@)[j].0 == set@[j].0);
        }
    }
    false
}

/// The accounts to refund: those listed, then those with expired flames, each once.
pub fn coingap_list(cm_list: Vec<Key>, sets: &KeyMap<AccountFlameSet>, expiry: u64) -> (r: Vec<Key>)
    ensures
        r@ == coingap(cm_list@, sets.raw_keys(), sets_view(sets@), expiry),
{
    let ghost keys = sets.raw_keys();
    let mut out = cm_list;
    let ghost l0 = out@;
    let n = sets.len();
    let mut i: usize = 0;
    while i < n
        invariant
            0 <= i <= n,
            n == sets.key_seq().len(),
            keys == sets.raw_keys(),
            out@ == coingap(l0, keys.subrange(0, i as int), sets_view(sets@), expiry),
        decreases n - i,
    {
        let k = sets.key_at(i);
        let set = sets.value_at(i);
        proof {
            assert(keys.subrange(0, i + 1).drop_last() =~= keys.subrange(0, i as int));
            assert(keys.subrange(0, i + 1).last() == k);
            assert(sets_view(sets@)[k@] == set_view(set@));
        }
        if set_has_expired(set, expiry) && !keys_contain(&out, &k) {
            out.push(k);
        }
        i = i + 1;
    }
    proof {
        assert(keys.subrange(0, n as int) =~= keys);
    }
    out
}

/// The sum of a flame set's values.
pub fn flame_set_value(set: &AccountFlameSet) -> (r: u64)
    requires
        set_value(set_view(set@)) <= u64::MAX,
    ensures
        r == set_value(set_view(set@)),
{
    let ghost sv = set_view(set@);
    let n = set.len();
    let mut total: u64 = 0;
    let mut i: usize = 0;
    while i < n
        invariant
            0 <= i <= n,
            n == set@.len(),
            sv == set_view(set@),
            set_value(sv) <= u64::MAX,
            total == set_value(sv.subrange(0, i as int)),
        decreases n - i,
    {
        let fl = &set[i].1;
        let ghost fv = indexed_view(fl@);
        proof {
            assert(sv.subrange(0, i + 1).drop_last() =~= sv.subrange(0, i as int));
            assert(sv.subrange(0, i + 1).last() == sv[i as int]);
            assert(sv[i as int].1 == fv);
            lemma_set_value_prefix_le(sv, i + 1);
        }
        let m = fl.len();
        let mut j: usize = 0;
        let ghost base = total;
        while j < m
            invariant
                0 <= j <= m,
                m == fl@.len(),
                fv == indexed_view(fl@),
                base + indexed_value(fv) <= u64::MAX,
                total == base + indexed_value(fv.subrange(0, j as int)),
            decreases m - j,
        {
            proof {
                assert(fv.subrange(0, j + 1).drop_last() =~= fv.subrange(0, j as int));
                assert(fv.subrange(0, j + 1).last() == fv[j as int]);
                lemma_indexed_value_prefix_le(fv, j + 1);
            }
            total = total + fl[j].1.satoshi_amount();
            j = j + 1;
        }
        proof {
            assert(fv.subrange(0, m as int) =~= fv);
        }
        i = i + 1;
    }
    proof {
        assert(sv.subrange(0, n as int) =~= sv);
    }
    total
}

/// Whether the sum of a flame set's values fits in 64 bits.
pub fn set_value_in_range(set: &AccountFlameSet) -> (r: bool)
    ensures
        r == (set_value(set_view(set@)) <= u64::MAX),
{
    let ghost sv = set_view(set@);
    let n = set.len();
    let mut total: u64 = 0;
    let mut i: usize = 0;
    proof {
        assert(sv.subrange(0, 0) =~= Seq::<(u64, Seq<(u32, FlameView)>)>::empty());
    }
    while i < n
        invariant
            0 <= i <= n,
            n == set@.len(),
            sv == set_view(set@),
            total == set_value(sv.subrange(0, i as int)),
        decreases n - i,
    {
        let fl = &set[i].1;
        let ghost fv = indexed_view(fl@);
        proof {
            assert(sv.subrange(0, i + 1).drop_last() =~= sv.subrange(0, i as int));
            assert(sv.subrange(0, i + 1).last() == sv[i as int]);
            assert(sv[i as int].1 == fv);
        }
        let m = fl.len();
        let mut j: usize = 0;
        let ghost base = total;
        proof {
            assert(fv.subrange(0, 0) =~= Seq::<(u32, FlameView)>::empty());
        }
        while j < m
            invariant
                0 <= i < n,
                n == set@.len(),
                sv == set_view(set@),
                base == set_value(sv.subrange(0, i as int)),
                set_value(sv.subrange(0, i + 1)) == base + indexed_value(fv),
                0 <= j <= m,
                m == fl@.len(),
                fv == indexed_view(fl@),
                total == base + indexed_value(fv.subrange(0, j as int)),
            decreases m - j,
        {
            proof {
                assert(fv.subrange(0, j + 1).drop_last() =~= fv.subrange(0, j as int));
                assert(fv.subrange(0, j + 1).last() == fv[j as int]);
            }
            match total.checked_add(fl[j].1.satoshi_amount()) {
                None => {
                    proof {
                        lemma_indexed_value_prefix_le(fv, j + 1);
                        lemma_set_value_prefix_le(sv, i + 1);
                    }
                    return false;
                },
                Some(t) => {
                    total = t;
                },
            }
            j = j + 1;
        }
        proof {
            assert(fv.subrange(0, m as int) =~= fv);
        }
        i = i + 1;
    }
    proof {
        assert(sv.subrange(0, n as int) =~= sv);
    }
    true
}

/// Flame values are never negative, and a prefix is worth no more than the whole.
pub proof fn lemma_indexed_value_prefix_le(fl: Seq<(u32, FlameView)>, i: int)
    requires
        0 <= i <= fl.len(),
    ensures
        0 <= indexed_value(fl.subrange(0, i)) <= indexed_value(fl),
    decreases fl.len() - i,
{
    if i < fl.len() {
        lemma_indexed_value_prefix_le(fl, i + 1);
        assert(fl.subrange(0, i + 1).drop_last() =~= fl.subrange(0, i));
        lemma_indexed_value_nonneg(fl.subrange(0, i));
    } else {
        assert(fl.subrange(0, i) =~= fl);
        lemma_indexed_value_nonneg(fl);
    }
}

/// Flame values are never negative.
pub proof fn lemma_indexed_value_nonneg(fl: Seq<(u32, FlameView)>)
    ensures
        0 <= indexed_value(fl),
    decreases fl.len(),
{
    if fl.len() > 0 {
        lemma_indexed_value_nonneg(fl.drop_last());
    }
}

/// A prefix of a flame set is worth no more than the whole, and nothing is negative.
pub proof fn lemma_set_value_prefix_le(set: SetView, i: int)
    requires
        0 <= i <= set.len(),
    ensures
        0 <= set_value(set.subrange(0, i)) <= set_value(set),
    decreases set.len() - i,
{
    if i < set.len() {
        lemma_set_value_prefix_le(set, i + 1);
        assert(set.subrange(0, i + 1).drop_last() =~= set.subrange(0, i));
        assert(set.subrange(0, i + 1).last() == set[i]);
        lemma_indexed_value_nonneg(set[i].1);
        lemma_set_value_nonneg(set.subrange(0, i));
    } else {
        assert(set.subrange(0, i) =~= set);
        lemma_set_value_nonneg(set);
    }
}

/// A flame set's value is never negative.
pub proof fn lemma_set_value_nonneg(set: SetView)
    ensures
        0 <= set_value(set),
    decreases set.len(),
{
    if set.len() > 0 {
        lemma_set_value_nonneg(set.drop_last());
        lemma_indexed_value_nonneg(set.last().1);
    }
}

/// The stored key of a flame.
pub fn flame_key(h: u64, i: u32) -> (r: [u8; 12])
    ensures
        r@ == flame_db_key(h, i),
{
    let hb = u64_to_le_bytes(h);
    let ib = u32_to_le_bytes(i);
    let mut k: [u8; 12] = [0u8; 12];
    let mut j: usize = 0;
    while j < 8
        invariant
            0 <= j <= 8,
            hb@.len() == 8,
            ib@.len() == 4,
            k@.len() == 12,
            forall|t: int| 0 <= t < j ==> k@[t] == hb@[t],
        decreases 8 - j,
    {
        k[j] = hb[j];
        j = j + 1;
    }
    while j < 12
        invariant
            8 <= j <= 12,
            hb@.len() == 8,
            ib@.len() == 4,
            k@.len() == 12,
            forall|t: int| 0 <= t < 8 ==> k@[t] == hb@[t],
            forall|t: int| 8 <= t < j ==> k@[t] == ib@[t - 8],
        decreases 12 - j,
    {
        k[j] = ib[j - 8];
        j = j + 1;
    }
    proof {
        assert(k@ =~= hb@ + ib@);
    }
    k
}

/// Prunes the expired heights of a flame set, producing the deletions of their flames.
pub fn prune_set(set: &AccountFlameSet, a: Key, expiry: u64, ops: &mut Vec<FMDiskOp>) -> (r: AccountFlameSet)
    ensures
        set_view(r@) == pruned(set_view(set@), expiry),
        ops_view(final(ops)@) == ops_view(old(ops)@) + prune_ops(a@, set_view(set@), expiry),
{
    let ghost sv = set_view(set@);
    let ghost o0 = ops_view(ops@);
    let mut kept: AccountFlameSet = Vec::new();
    let n = set.len();
    let mut i: usize = 0;
    while i < n
        invariant
            0 <= i <= n,
            n == set@.len(),
            sv == set_view(set@),
            o0 == ops_view(old(ops)@),
            set_view(kept@) == pruned(sv.subrange(0, i as int), expiry),
            ops_view(ops@) == o0 + prune_ops(a@, sv.subrange(0, i as int), expiry),
        decreases n - i,
    {
        let h = set[i].0;
        let fl = &set[i].1;
        proof {
            assert(sv.subrange(0, i + 1).drop_last() =~= sv.subrange(0, i as int));
            assert(sv.subrange(0, i + 1).last() == sv[i as int]);
        }
        if h > expiry {
            let ghost before = set_view(kept@);
            let c = indexed_copy(fl);
            kept.push((h, c));
            proof {
                assert(set_view(kept@) =~= before.push(sv[i as int]));
                assert(ops_view(ops@) =~= o0 + prune_ops(a@, sv.subrange(0, i + 1), expiry));
            }
        } else {
            let ghost base = ops_view(ops@);
            let ghost fv = indexed_view(fl@);
            let m = fl.len();
            let mut j: usize = 0;
            while j < m
                invariant
                    0 <= j <= m,
                    m == fl@.len(),
                    fv == indexed_view(fl@),
                    ops_view(ops@) == base + remove_flame_ops(a@, h, fv.subrange(0, j as int)),
                decreases m - j,
            {
                let key = flame_key(h, fl[j].0);
                let ghost pre = ops_view(ops@);
                ops.push(FMDiskOp::RemoveFlame(a, key));
                proof {
                    assert(fv.subrange(0, j + 1).drop_last() =~= fv.subrange(0, j as int));
                    assert(fv.subrange(0, j + 1).last() == fv[j as int]);
                    assert(ops_view(ops@) =~= pre.push(FMDiskOpView::RemoveFlame(a@, flame_db_key(h, fv[j as int].0))));
                    assert(ops_view(ops@) =~= base + remove_flame_ops(a@, h, fv.subrange(0, j + 1)));
                }
                j = j + 1;
            }
            proof {
                assert(fv.subrange(0, m as int) =~= fv);
                assert(sv[i as int].1 == fv);
                assert(ops_view(ops@) =~= o0 + prune_ops(a@, sv.subrange(0, i + 1), expiry));
            }
        }
        i = i + 1;
    }
    proof {
        assert(sv.subrange(0, n as int) =~= sv);
    }
    kept
}

/// A flame set with the flames of a height replaced, producing the writes of the new flames.
pub fn set_height_exec(set: &AccountFlameSet, a: Key, h: u64, fl: &Vec<IndexedFlame>, ops: &mut Vec<FMDiskOp>) -> (r: AccountFlameSet)
    ensures
        set_view(r@) == set_height(set_view(set@), h, indexed_view(fl@)),
        ops_view(final(ops)@) == ops_view(old(ops)@) + put_flame_ops(a@, h, indexed_view(fl@)),
{
    let ghost sv = set_view(set@);
    let mut out: AccountFlameSet = Vec::new();
    let n = set.len();
    let mut i: usize = 0;
    while i < n
        invariant
            0 <= i <= n,
            n == set@.len(),
            sv == set_view(set@),
            set_view(out@) == sv.subrange(0, i as int).filter(not_height(h)),
        decreases n - i,
    {
        proof {
            assert(sv.subrange(0, i + 1).drop_last() =~= sv.subrange(0, i as int));
            assert(sv.subrange(0, i + 1).last() == sv[i as int]);
            assert(not_height(h)(sv[i as int]) == (sv[i as int].0 != h));
            assert(sv[i as int].0 == set@[i as int].0);
            let p = sv.subrange(0, i + 1);
            assert(p.len() > 0);
            reveal(Seq::filter);
            assert(p.filter(not_height(h)) == (if not_height(h)(p.last()) {
                p.drop_last().filter(not_height(h)).push(p.last())
            } else {
                p.drop_last().filter(not_height(h))
            }));
        }
        if set[i].0 != h {
            let ghost before = set_view(out@);
            let c = indexed_copy(&set[i].1);
            out.push((set[i].0, c));
            proof {
                assert(set_view(out@) =~= before.push(sv[i as int]));
            }
        }
        i = i + 1;
    }
    proof {
        assert(sv.subrange(0, n as int) =~= sv);
    }
    let ghost before = set_view(out@);
    let c = indexed_copy(fl);
    out.push((h, c));
    proof {
        assert(set_view(out@) =~= before.push((h, indexed_view(fl@))));
    }
    let ghost o0 = ops_view(ops@);
    let ghost fv = indexed_view(fl@);
    let m = fl.len();
    let mut j: usize = 0;
    while j < m
        invariant
            0 <= j <= m,
            m == fl@.len(),
            fv == indexed_view(fl@),
            o0 == ops_view(old(ops)@),
            ops_view(ops@) == o0 + put_flame_ops(a@, h, fv.subrange(0, j as int)),
        decreases m - j,
    {
        let key = flame_key(h, fl[j].0);
        let bytes = fl[j].1.to_bytes();
        let ghost pre = ops_view(ops@);
        ops.push(FMDiskOp::PutFlame(a, key, bytes));
        proof {
            assert(fv.subrange(0, j + 1).drop_last() =~= fv.subrange(0, j as int));
            assert(fv.subrange(0, j + 1).last() == fv[j as int]);
            assert(ops_view(ops@) =~= pre.push(FMDiskOpView::PutFlame(a@, flame_db_key(h, fv[j as int].0), super::flame::flame_encode(fv[j as int].1))));
            assert(ops_view(ops@) =~= o0 + put_flame_ops(a@, h, fv.subrange(0, j + 1)));
        }
        j = j + 1;
    }
    proof {
        assert(fv.subrange(0, m as int) =~= fv);
    }
    out
}

} // verus!
