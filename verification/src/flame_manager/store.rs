use super::apply_spec::{
    flame_apply_outcome, flame_apply_safe, flame_apply_steps, flame_db_key, fund_all, fund_start, inserted, not_height,
    projection_view, prune_ops, pruned, put_flame_ops, registered, registration_ops, remove_flame_ops, set_height, update_ops,
    ConfigsView, FMDiskOpView, SetView, SetsView,
};
use super::flame::Flame;
use super::flame_config::{config_decode, config_encode, law_config_round_trip, slots_encodable, TierView};
use super::load::{account_tree_read, group_push};
use super::flame_sorting::lemma_lex_irrefl;
use super::flame_manager::FlameManagerView;
use crate::coin_manager::coin_manager::CoinManagerView;
use crate::keymap::Key;
use super::flame::{flame_decode, flame_encode, law_flame_round_trip, FlameView};
use crate::codec::{le_encode, le_value, lemma_le_encode_len, lemma_le_round_trip, lemma_pow256_values};
use vstd::prelude::*;

verus! {

/// The projector height and index a stored flame key names.
pub open spec fn flame_key_of(fk: Seq<u8>) -> (u64, u32) {
    (le_value(fk.subrange(0, 8)) as u64, le_value(fk.subrange(8, 12)) as u32)
}

/// The flames of one projector height, by height and index, over those of `m`; a later flame with
/// the same index replaces an earlier one.
pub open spec fn group_flames(m: Map<(u64, u32), FlameView>, h: u64, fl: Seq<(u32, FlameView)>) -> Map<(u64, u32), FlameView>
    decreases fl.len(),
{
    if fl.len() == 0 {
        m
    } else {
        group_flames(m, h, fl.drop_last()).insert((h, fl.last().0), fl.last().1)
    }
}

/// The flames of a flame set, by projector height and index.
pub open spec fn set_flames(set: SetView) -> Map<(u64, u32), FlameView>
    decreases set.len(),
{
    if set.len() == 0 {
        Map::empty()
    } else {
        group_flames(set_flames(set.drop_last()), set.last().0, set.last().1)
    }
}

/// The flames the tree of account `acc` holds once one write is made; a write for another account
/// or of a configuration leaves them.
pub open spec fn account_flame_write(acc: Seq<u8>, m: Map<(u64, u32), FlameView>, op: FMDiskOpView) -> Map<(u64, u32), FlameView> {
    match op {
        FMDiskOpView::PutFlame(a, fk, b) => if a == acc {
            match flame_decode(b) {
                Some(f) => m.insert(flame_key_of(fk), f),
                None => m,
            }
        } else {
            m
        },
        FMDiskOpView::RemoveFlame(a, fk) => if a == acc {
            m.remove(flame_key_of(fk))
        } else {
            m
        },
        _ => m,
    }
}

/// The flames the tree of account `acc` holds once writes are made, in order.
pub open spec fn account_flames_written(acc: Seq<u8>, m: Map<(u64, u32), FlameView>, ops: Seq<FMDiskOpView>) -> Map<(u64, u32), FlameView>
    decreases ops.len(),
{
    if ops.len() == 0 {
        m
    } else {
        account_flame_write(acc, account_flames_written(acc, m, ops.drop_last()), ops.last())
    }
}

/// The key of a stored flame names its height and index.
pub proof fn lemma_flame_key_of(h: u64, i: u32)
    ensures
        flame_key_of(flame_db_key(h, i)) == (h, i),
        flame_db_key(h, i).len() == 12,
{
    lemma_pow256_values();
    lemma_le_encode_len(h as nat, 8);
    lemma_le_encode_len(i as nat, 4);
    lemma_le_round_trip(h as nat, 8);
    lemma_le_round_trip(i as nat, 4);
    let k = flame_db_key(h, i);
    assert(k.subrange(0, 8) =~= le_encode(h as nat, 8));
    assert(k.subrange(8, 12) =~= le_encode(i as nat, 4));
}

/// Writes made one after the other.
pub proof fn lemma_account_flames_written_concat(acc: Seq<u8>, m: Map<(u64, u32), FlameView>, s1: Seq<FMDiskOpView>, s2: Seq<FMDiskOpView>)
    ensures
        account_flames_written(acc, m, s1 + s2) == account_flames_written(acc, account_flames_written(acc, m, s1), s2),
    decreases s2.len(),
{
    if s2.len() == 0 {
        assert(s1 + s2 =~= s1);
    } else {
        lemma_account_flames_written_concat(acc, m, s1, s2.drop_last());
        assert((s1 + s2).drop_last() =~= s1 + s2.drop_last());
        assert((s1 + s2).last() == s2.last());
    }
}

/// The flames of one height, over nothing.
pub open spec fn height_flames(h: u64, fl: Seq<(u32, FlameView)>) -> Map<(u64, u32), FlameView> {
    group_flames(Map::empty(), h, fl)
}

/// The flames of one height over others are those others, then the height's flames.
pub proof fn lemma_group_flames_union(m: Map<(u64, u32), FlameView>, h: u64, fl: Seq<(u32, FlameView)>)
    ensures
        group_flames(m, h, fl) == m.union_prefer_right(height_flames(h, fl)),
        forall|k: (u64, u32)| #[trigger] height_flames(h, fl).dom().contains(k) ==> k.0 == h,
    decreases fl.len(),
{
    if fl.len() > 0 {
        lemma_group_flames_union(m, h, fl.drop_last());
        lemma_group_flames_union(Map::empty(), h, fl.drop_last());
        assert(group_flames(Map::empty(), h, fl.drop_last()) == Map::<(u64, u32), FlameView>::empty().union_prefer_right(height_flames(h, fl.drop_last())));
        assert(Map::<(u64, u32), FlameView>::empty().union_prefer_right(height_flames(h, fl.drop_last())) =~= height_flames(h, fl.drop_last()));
        assert(group_flames(m, h, fl) =~= m.union_prefer_right(height_flames(h, fl)));
    } else {
        assert(height_flames(h, fl) =~= Map::<(u64, u32), FlameView>::empty());
        assert(m.union_prefer_right(height_flames(h, fl)) =~= m);
    }
}

/// Storing the flames of a height, each with a script pubkey shorter than 2^16 bytes, gives the
/// height's flames over what the tree held.
pub proof fn lemma_put_flames_written(m: Map<(u64, u32), FlameView>, a: Seq<u8>, h: u64, fl: Seq<(u32, FlameView)>)
    requires
        forall|j: int| 0 <= j < fl.len() ==> (#[trigger] fl[j]).1.spk.len() < 0x1_0000,
    ensures
        account_flames_written(a, m, put_flame_ops(a, h, fl)) == group_flames(m, h, fl),
    decreases fl.len(),
{
    if fl.len() > 0 {
        let p = fl.drop_last();
        let e = fl.last();
        assert forall|j: int| 0 <= j < p.len() implies (#[trigger] p[j]).1.spk.len() < 0x1_0000 by {
            assert(p[j] == fl[j]);
        }
        lemma_put_flames_written(m, a, h, p);
        assert(fl[fl.len() - 1].1.spk.len() < 0x1_0000);
        law_flame_round_trip(e.1, Seq::<u8>::empty());
        assert(flame_encode(e.1) + Seq::<u8>::empty() =~= flame_encode(e.1));
        lemma_flame_key_of(h, e.0);
        let ops = put_flame_ops(a, h, fl);
        assert(ops.drop_last() == put_flame_ops(a, h, p));
        assert(ops.last() == FMDiskOpView::PutFlame(a, flame_db_key(h, e.0), flame_encode(e.1)));
        assert(account_flames_written(a, m, ops) == account_flame_write(a, account_flames_written(a, m, put_flame_ops(a, h, p)), ops.last()));
    }
}

/// Deleting the flames of a height removes their keys from what the tree held.
pub proof fn lemma_remove_flames_written(m: Map<(u64, u32), FlameView>, a: Seq<u8>, h: u64, fl: Seq<(u32, FlameView)>)
    ensures
        account_flames_written(a, m, remove_flame_ops(a, h, fl)) == m.remove_keys(height_flames(h, fl).dom()),
    decreases fl.len(),
{
    if fl.len() > 0 {
        let p = fl.drop_last();
        let e = fl.last();
        lemma_remove_flames_written(m, a, h, p);
        lemma_flame_key_of(h, e.0);
        let ops = remove_flame_ops(a, h, fl);
        assert(ops.drop_last() == remove_flame_ops(a, h, p));
        assert(ops.last() == FMDiskOpView::RemoveFlame(a, flame_db_key(h, e.0)));
        assert(account_flames_written(a, m, ops) == account_flames_written(a, m, remove_flame_ops(a, h, p)).remove((h, e.0)));
        assert(height_flames(h, fl) == height_flames(h, p).insert((h, e.0), e.1));
        assert(account_flames_written(a, m, remove_flame_ops(a, h, fl)) =~= m.remove_keys(height_flames(h, fl).dom()));
    } else {
        assert(m.remove_keys(height_flames(h, fl).dom()) =~= m);
    }
}


/// Whether a write is of a flame in the tree of account `acc`.
pub open spec fn op_for(acc: Seq<u8>, op: FMDiskOpView) -> bool {
    match op {
        FMDiskOpView::PutFlame(a, _, _) => a == acc,
        FMDiskOpView::RemoveFlame(a, _) => a == acc,
        _ => false,
    }
}

/// Writes none of which is of a flame in the tree of `acc` leave its flames.
pub proof fn lemma_untouched(acc: Seq<u8>, m: Map<(u64, u32), FlameView>, ops: Seq<FMDiskOpView>)
    requires
        forall|i: int| 0 <= i < ops.len() ==> !op_for(acc, #[trigger] ops[i]),
    ensures
        account_flames_written(acc, m, ops) == m,
    decreases ops.len(),
{
    if ops.len() > 0 {
        let p = ops.drop_last();
        assert forall|i: int| 0 <= i < p.len() implies !op_for(acc, #[trigger] p[i]) by {
            assert(p[i] == ops[i]);
        }
        lemma_untouched(acc, m, p);
        assert(!op_for(acc, ops[ops.len() - 1]));
    }
}

/// The writes of storing the flames of a height are all of flames in the tree of `a`.
pub proof fn lemma_put_ops_for(a: Seq<u8>, h: u64, fl: Seq<(u32, FlameView)>)
    ensures
        forall|acc: Seq<u8>, i: int| 0 <= i < put_flame_ops(a, h, fl).len() ==> (#[trigger] op_for(acc, put_flame_ops(a, h, fl)[i]) <==> acc == a),
    decreases fl.len(),
{
    if fl.len() > 0 {
        lemma_put_ops_for(a, h, fl.drop_last());
        let ops = put_flame_ops(a, h, fl);
        let p = put_flame_ops(a, h, fl.drop_last());
        assert forall|acc: Seq<u8>, i: int| 0 <= i < ops.len() implies (#[trigger] op_for(acc, ops[i]) <==> acc == a) by {
            if i < p.len() {
                assert(ops[i] == p[i]);
            }
        }
    }
}

/// The deletions of the flames of a height are all of flames in the tree of `a`.
pub proof fn lemma_remove_ops_for(a: Seq<u8>, h: u64, fl: Seq<(u32, FlameView)>)
    ensures
        forall|acc: Seq<u8>, i: int| 0 <= i < remove_flame_ops(a, h, fl).len() ==> (#[trigger] op_for(acc, remove_flame_ops(a, h, fl)[i]) <==> acc == a),
    decreases fl.len(),
{
    if fl.len() > 0 {
        lemma_remove_ops_for(a, h, fl.drop_last());
        let ops = remove_flame_ops(a, h, fl);
        let p = remove_flame_ops(a, h, fl.drop_last());
        assert forall|acc: Seq<u8>, i: int| 0 <= i < ops.len() implies (#[trigger] op_for(acc, ops[i]) <==> acc == a) by {
            if i < p.len() {
                assert(ops[i] == p[i]);
            }
        }
    }
}

/// The deletions of expired flames are all of flames in the tree of `a`.
pub proof fn lemma_prune_ops_for(a: Seq<u8>, set: SetView, expiry: u64)
    ensures
        forall|acc: Seq<u8>, i: int| 0 <= i < prune_ops(a, set, expiry).len() ==> (#[trigger] op_for(acc, prune_ops(a, set, expiry)[i]) ==> acc == a),
    decreases set.len(),
{
    if set.len() > 0 {
        let p = set.drop_last();
        lemma_prune_ops_for(a, p, expiry);
        let tail = if set.last().0 <= expiry {
            remove_flame_ops(a, set.last().0, set.last().1)
        } else {
            Seq::empty()
        };
        lemma_remove_ops_for(a, set.last().0, set.last().1);
        let ops = prune_ops(a, set, expiry);
        assert(ops == prune_ops(a, p, expiry) + tail);
        assert forall|acc: Seq<u8>, i: int| 0 <= i < ops.len() && #[trigger] op_for(acc, ops[i]) implies acc == a by {
            if i < prune_ops(a, p, expiry).len() {
                assert(ops[i] == prune_ops(a, p, expiry)[i]);
            } else {
                assert(ops[i] == tail[i - prune_ops(a, p, expiry).len()]);
            }
        }
    }
}

/// The flames of the expired heights of a flame set.
pub open spec fn expired_keys(set: SetView, expiry: u64) -> Set<(u64, u32)>
    decreases set.len(),
{
    if set.len() == 0 {
        Set::empty()
    } else {
        expired_keys(set.drop_last(), expiry) + if set.last().0 <= expiry {
            height_flames(set.last().0, set.last().1).dom()
        } else {
            Set::empty()
        }
    }
}

/// Deleting the expired flames of a flame set removes the flames of its expired heights.
pub proof fn lemma_prune_written(a: Seq<u8>, m: Map<(u64, u32), FlameView>, set: SetView, expiry: u64)
    ensures
        account_flames_written(a, m, prune_ops(a, set, expiry)) == m.remove_keys(expired_keys(set, expiry)),
    decreases set.len(),
{
    if set.len() == 0 {
        assert(m.remove_keys(expired_keys(set, expiry)) =~= m);
    } else {
        let p = set.drop_last();
        let l = set.last();
        lemma_prune_written(a, m, p, expiry);
        let tail = if l.0 <= expiry {
            remove_flame_ops(a, l.0, l.1)
        } else {
            Seq::empty()
        };
        lemma_account_flames_written_concat(a, m, prune_ops(a, p, expiry), tail);
        let m1 = m.remove_keys(expired_keys(p, expiry));
        if l.0 <= expiry {
            lemma_remove_flames_written(m1, a, l.0, l.1);
        }
        assert(m1.remove_keys(if l.0 <= expiry { height_flames(l.0, l.1).dom() } else { Set::empty() }) =~= m.remove_keys(expired_keys(set, expiry)));
    }
}

/// The heights of the flames of a flame set are heights of the set.
pub proof fn lemma_set_flames_heights(set: SetView)
    ensures
        forall|k: (u64, u32)| #[trigger] set_flames(set).dom().contains(k) ==> exists|i: int| 0 <= i < set.len() && (#[trigger] set[i]).0 == k.0,
    decreases set.len(),
{
    if set.len() > 0 {
        let p = set.drop_last();
        lemma_set_flames_heights(p);
        lemma_group_flames_union(set_flames(p), set.last().0, set.last().1);
        assert forall|k: (u64, u32)| #[trigger] set_flames(set).dom().contains(k) implies exists|i: int| 0 <= i < set.len() && (#[trigger] set[i]).0 == k.0 by {
            if set_flames(p).dom().contains(k) {
                let i = choose|i: int| 0 <= i < p.len() && (#[trigger] p[i]).0 == k.0;
                assert(set[i] == p[i]);
            } else {
                assert(height_flames(set.last().0, set.last().1).dom().contains(k));
                assert(set[set.len() - 1].0 == k.0);
            }
        }
    }
}

/// The heights of the expired flames of a flame set are heights of the set.
pub proof fn lemma_expired_keys_heights(set: SetView, expiry: u64)
    ensures
        forall|k: (u64, u32)| #[trigger] expired_keys(set, expiry).contains(k) ==> exists|i: int| 0 <= i < set.len() && (#[trigger] set[i]).0 == k.0,
    decreases set.len(),
{
    if set.len() > 0 {
        let p = set.drop_last();
        lemma_expired_keys_heights(p, expiry);
        lemma_group_flames_union(Map::empty(), set.last().0, set.last().1);
        assert forall|k: (u64, u32)| #[trigger] expired_keys(set, expiry).contains(k) implies exists|i: int| 0 <= i < set.len() && (#[trigger] set[i]).0 == k.0 by {
            if expired_keys(p, expiry).contains(k) {
                let i = choose|i: int| 0 <= i < p.len() && (#[trigger] p[i]).0 == k.0;
                assert(set[i] == p[i]);
            } else {
                assert(height_flames(set.last().0, set.last().1).dom().contains(k));
                assert(set[set.len() - 1].0 == k.0);
            }
        }
    }
}

/// Whether the heights of a flame set differ.
pub open spec fn heights_distinct(set: SetView) -> bool {
    forall|i: int, j: int| 0 <= i < j < set.len() ==> (#[trigger] set[i]).0 != (#[trigger] set[j]).0
}

/// Pruning keeps heights of the set, each above the expiry height, and keeps them distinct.
pub proof fn lemma_pruned_heights(set: SetView, expiry: u64)
    ensures
        forall|j: int| 0 <= j < pruned(set, expiry).len() ==> exists|i: int| 0 <= i < set.len() && #[trigger] pruned(set, expiry)[j] == #[trigger] set[i],
        forall|j: int| 0 <= j < pruned(set, expiry).len() ==> (#[trigger] pruned(set, expiry)[j]).0 > expiry,
        heights_distinct(set) ==> heights_distinct(pruned(set, expiry)),
    decreases set.len(),
{
    if set.len() > 0 {
        let p = set.drop_last();
        let l = set.last();
        lemma_pruned_heights(p, expiry);
        let r = pruned(p, expiry);
        assert forall|j: int| 0 <= j < pruned(set, expiry).len() implies exists|i: int| 0 <= i < set.len() && #[trigger] pruned(set, expiry)[j] == #[trigger] set[i] by {
            if j < r.len() {
                let i = choose|i: int| 0 <= i < p.len() && #[trigger] r[j] == #[trigger] p[i];
                assert(pruned(set, expiry)[j] == r[j]);
                assert(set[i] == p[i]);
            } else {
                assert(pruned(set, expiry)[j] == set[set.len() - 1]);
            }
        }
        assert forall|j: int| 0 <= j < pruned(set, expiry).len() implies (#[trigger] pruned(set, expiry)[j]).0 > expiry by {
            if j < r.len() {
                assert(pruned(set, expiry)[j] == r[j]);
            }
        }
        if heights_distinct(set) && l.0 > expiry {
            assert(heights_distinct(p)) by {
                assert forall|i: int, j: int| 0 <= i < j < p.len() implies (#[trigger] p[i]).0 != (#[trigger] p[j]).0 by {
                    assert(p[i] == set[i] && p[j] == set[j]);
                }
            }
            let q = pruned(set, expiry);
            assert forall|i: int, j: int| 0 <= i < j < q.len() implies (#[trigger] q[i]).0 != (#[trigger] q[j]).0 by {
                assert(q[i] == r[i]);
                if j < r.len() {
                    assert(q[j] == r[j]);
                } else {
                    let i0 = choose|i0: int| 0 <= i0 < p.len() && #[trigger] r[i] == #[trigger] p[i0];
                    assert(p[i0] == set[i0]);
                    assert(set[set.len() - 1] == l);
                }
            }
        } else if heights_distinct(set) {
            assert forall|i: int, j: int| 0 <= i < j < p.len() implies (#[trigger] p[i]).0 != (#[trigger] p[j]).0 by {
                assert(p[i] == set[i] && p[j] == set[j]);
            }
        }
    }
}

/// The flames of a flame set with one more height.
pub proof fn lemma_set_flames_push(set: SetView, g: (u64, Seq<(u32, FlameView)>))
    ensures
        set_flames(set.push(g)) == set_flames(set).union_prefer_right(height_flames(g.0, g.1)),
        forall|k: (u64, u32)| #[trigger] height_flames(g.0, g.1).dom().contains(k) ==> k.0 == g.0,
{
    assert(set.push(g).drop_last() =~= set);
    lemma_group_flames_union(set_flames(set), g.0, g.1);
}

/// With distinct heights, the flames of a flame set without those of its expired heights are the
/// flames of the pruned set.
pub proof fn lemma_pruned_flames(set: SetView, expiry: u64)
    requires
        heights_distinct(set),
    ensures
        set_flames(set).remove_keys(expired_keys(set, expiry)) == set_flames(pruned(set, expiry)),
    decreases set.len(),
{
    if set.len() == 0 {
        assert(set_flames(set).remove_keys(expired_keys(set, expiry)) =~= set_flames(set));
    } else {
        let p = set.drop_last();
        let l = set.last();
        assert(set == p.push(l));
        assert(heights_distinct(p)) by {
            assert forall|i: int, j: int| 0 <= i < j < p.len() implies (#[trigger] p[i]).0 != (#[trigger] p[j]).0 by {
                assert(p[i] == set[i] && p[j] == set[j]);
            }
        }
        assert forall|i: int| 0 <= i < p.len() implies (#[trigger] p[i]).0 != l.0 by {
            assert(p[i] == set[i] && set[set.len() - 1] == l);
        }
        lemma_pruned_flames(p, expiry);
        lemma_set_flames_push(p, l);
        lemma_expired_keys_heights(p, expiry);
        let sf = set_flames(p);
        let hl = height_flames(l.0, l.1);
        let ek = expired_keys(p, expiry);
        let r = pruned(p, expiry);
        if l.0 <= expiry {
            assert(set_flames(set).remove_keys(expired_keys(set, expiry)) =~= sf.remove_keys(ek).remove_keys(hl.dom()));
            lemma_set_flames_heights(r);
            lemma_pruned_heights(p, expiry);
            assert forall|k: (u64, u32)| #[trigger] set_flames(r).dom().contains(k) implies !hl.dom().contains(k) by {
                let j = choose|j: int| 0 <= j < r.len() && (#[trigger] r[j]).0 == k.0;
                let i = choose|i: int| 0 <= i < p.len() && #[trigger] r[j] == #[trigger] p[i];
            }
            assert(set_flames(r).remove_keys(hl.dom()) =~= set_flames(r));
        } else {
            assert forall|k: (u64, u32)| #[trigger] ek.contains(k) implies !hl.dom().contains(k) by {
                let i = choose|i: int| 0 <= i < p.len() && (#[trigger] p[i]).0 == k.0;
            }
            assert(set_flames(set).remove_keys(expired_keys(set, expiry)) =~= sf.remove_keys(ek).union_prefer_right(hl));
            assert(pruned(set, expiry) == r.push(l));
            lemma_set_flames_push(r, l);
        }
    }
}

/// A flame set without a given height is unchanged when that height is filtered out, and replacing
/// the height adds its flames.
pub proof fn lemma_set_height_flames(set: SetView, h: u64, fl: Seq<(u32, FlameView)>)
    requires
        forall|i: int| 0 <= i < set.len() ==> (#[trigger] set[i]).0 != h,
    ensures
        set.filter(not_height(h)) == set,
        set_flames(set_height(set, h, fl)) == group_flames(set_flames(set), h, fl),
    decreases set.len(),
{
    if set.len() > 0 {
        let p = set.drop_last();
        assert forall|i: int| 0 <= i < p.len() implies (#[trigger] p[i]).0 != h by {
            assert(p[i] == set[i]);
        }
        lemma_set_height_flames(p, h, fl);
        assert(set == p.push(set.last()));
        p.lemma_filter_push(set.last(), not_height(h));
        assert(set[set.len() - 1].0 != h);
    } else {
        reveal(Seq::filter);
    }
    let g = (h, fl);
    assert(set_height(set, h, fl) == set.push(g));
    assert(set.push(g).drop_last() =~= set);
}

/// Every flame set has distinct heights, all below `h`.
pub open spec fn sets_below(sets: SetsView, h: u64) -> bool {
    forall|acc: Seq<u8>| #[trigger] sets.dom().contains(acc) ==> {
        &&& heights_distinct(sets[acc])
        &&& forall|i: int| 0 <= i < sets[acc].len() ==> (#[trigger] sets[acc][i]).0 < h
    }
}

/// Funding accounts prunes flame sets and deletes exactly the pruned flames: the writes made over
/// each account's stored flames give the flames of its new set.
pub proof fn lemma_fund_all_written(s1: SetsView, accounts: Seq<Key>, m: FlameManagerView, cm: CoinManagerView, expiry: u64, h: u64)
    requires
        forall|i: int| 0 <= i < accounts.len() && #[trigger] m.config(accounts[i]@) is Some ==> s1.dom().contains(accounts[i]@),
        sets_below(s1, h),
        fund_all(fund_start(s1), accounts, m, cm, expiry) is Ok,
    ensures
        ({
            let st = fund_all(fund_start(s1), accounts, m, cm, expiry)->Ok_0;
            &&& st.sets.dom() == s1.dom()
            &&& sets_below(st.sets, h)
            &&& st.funds.dom().subset_of(s1.dom())
            &&& forall|acc: Seq<u8>| #[trigger] s1.dom().contains(acc) ==>
                account_flames_written(acc, set_flames(s1[acc]), st.ops) == set_flames(st.sets[acc])
        }),
    decreases accounts.len(),
{
    if accounts.len() == 0 {
        let st = fund_start(s1);
        assert(st.funds.dom() =~= Set::<Seq<u8>>::empty());
    } else {
        let q = accounts.drop_last();
        let a = accounts.last();
        assert forall|i: int| 0 <= i < q.len() && #[trigger] m.config(q[i]@) is Some implies s1.dom().contains(q[i]@) by {
            assert(q[i] == accounts[i]);
        }
        lemma_fund_all_written(s1, q, m, cm, expiry, h);
        let s0 = fund_all(fund_start(s1), q, m, cm, expiry)->Ok_0;
        let st = fund_all(fund_start(s1), accounts, m, cm, expiry)->Ok_0;
        if m.config(a@) is Some {
            assert(m.config(accounts[accounts.len() - 1]@) is Some);
            let set = s0.sets[a@];
            let pr = prune_ops(a@, set, expiry);
            assert(st.sets == s0.sets.insert(a@, pruned(set, expiry)));
            assert(st.ops == s0.ops + pr);
            lemma_pruned_heights(set, expiry);
            assert(sets_below(st.sets, h)) by {
                assert forall|acc: Seq<u8>| #[trigger] st.sets.dom().contains(acc) implies {
                    &&& heights_distinct(st.sets[acc])
                    &&& forall|i: int| 0 <= i < st.sets[acc].len() ==> (#[trigger] st.sets[acc][i]).0 < h
                } by {
                    if acc == a@ {
                        assert forall|j: int| 0 <= j < st.sets[acc].len() implies (#[trigger] st.sets[acc][j]).0 < h by {
                            let i = choose|i: int| 0 <= i < set.len() && #[trigger] pruned(set, expiry)[j] == #[trigger] set[i];
                        }
                    }
                }
            }
            assert(st.sets.dom() =~= s1.dom());
            assert(st.funds.dom().subset_of(s1.dom()));
            lemma_prune_ops_for(a@, set, expiry);
            assert forall|acc: Seq<u8>| #[trigger] s1.dom().contains(acc) implies
                account_flames_written(acc, set_flames(s1[acc]), st.ops) == set_flames(st.sets[acc]) by {
                lemma_account_flames_written_concat(acc, set_flames(s1[acc]), s0.ops, pr);
                if acc == a@ {
                    lemma_prune_written(acc, set_flames(set), set, expiry);
                    lemma_pruned_flames(set, expiry);
                } else {
                    assert forall|i: int| 0 <= i < pr.len() implies !op_for(acc, #[trigger] pr[i]) by {
                        if op_for(acc, pr[i]) {
                            assert(acc == a@);
                        }
                    }
                    lemma_untouched(acc, set_flames(s0.sets[acc]), pr);
                }
            }
        }
    }
}

/// Storing each account's new flames at a height none of its sets has: the writes made over each
/// account's flames give the flames of its new set.
pub proof fn lemma_inserted_written(sets: SetsView, sorted: Seq<(Seq<u8>, Seq<(u32, FlameView)>)>, h: u64)
    requires
        forall|acc: Seq<u8>, i: int| #[trigger] sets.dom().contains(acc) && 0 <= i < sets[acc].len() ==> (#[trigger] sets[acc][i]).0 != h,
        forall|i: int, j: int| 0 <= i < j < sorted.len() ==> (#[trigger] sorted[i]).0 != (#[trigger] sorted[j]).0,
        forall|i: int| 0 <= i < sorted.len() ==> sets.dom().contains((#[trigger] sorted[i]).0),
        forall|i: int, j: int| 0 <= i < sorted.len() && 0 <= j < sorted[i].1.len() ==> (#[trigger] sorted[i].1[j]).1.spk.len() < 0x1_0000,
    ensures
        inserted(sets, sorted, h).0.dom() == sets.dom(),
        forall|acc: Seq<u8>| #[trigger] sets.dom().contains(acc) ==>
            account_flames_written(acc, set_flames(sets[acc]), inserted(sets, sorted, h).1) == set_flames(inserted(sets, sorted, h).0[acc]),
        forall|acc: Seq<u8>| #[trigger] sets.dom().contains(acc) && (forall|i: int| 0 <= i < sorted.len() ==> (#[trigger] sorted[i]).0 != acc) ==>
            inserted(sets, sorted, h).0[acc] == sets[acc],
    decreases sorted.len(),
{
    if sorted.len() > 0 {
        let p = sorted.drop_last();
        let (k, fl) = sorted.last();
        assert forall|i: int, j: int| 0 <= i < j < p.len() implies (#[trigger] p[i]).0 != (#[trigger] p[j]).0 by {
            assert(p[i] == sorted[i] && p[j] == sorted[j]);
        }
        assert forall|i: int| 0 <= i < p.len() implies sets.dom().contains((#[trigger] p[i]).0) by {
            assert(p[i] == sorted[i]);
        }
        assert forall|i: int, j: int| 0 <= i < p.len() && 0 <= j < p[i].1.len() implies (#[trigger] p[i].1[j]).1.spk.len() < 0x1_0000 by {
            assert(p[i] == sorted[i]);
        }
        lemma_inserted_written(sets, p, h);
        let (s1, o1) = inserted(sets, p, h);
        assert(sorted[sorted.len() - 1] == (k, fl));
        assert(sets.dom().contains(k));
        assert forall|i: int| 0 <= i < p.len() implies (#[trigger] p[i]).0 != k by {
            assert(p[i] == sorted[i]);
        }
        assert(s1[k] == sets[k]);
        assert forall|j: int| 0 <= j < fl.len() implies (#[trigger] fl[j]).1.spk.len() < 0x1_0000 by {
            assert(sorted[sorted.len() - 1].1[j] == fl[j]);
        }
        assert forall|i: int| 0 <= i < sets[k].len() implies (#[trigger] sets[k][i]).0 != h by {
            assert(sets.dom().contains(k));
        }
        lemma_set_height_flames(sets[k], h, fl);
        let put = put_flame_ops(k, h, fl);
        lemma_put_ops_for(k, h, fl);
        assert forall|acc: Seq<u8>| #[trigger] sets.dom().contains(acc) implies
            account_flames_written(acc, set_flames(sets[acc]), inserted(sets, sorted, h).1) == set_flames(inserted(sets, sorted, h).0[acc]) by {
            lemma_account_flames_written_concat(acc, set_flames(sets[acc]), o1, put);
            if acc == k {
                lemma_put_flames_written(set_flames(sets[k]), k, h, fl);
            } else {
                assert forall|i: int| 0 <= i < put.len() implies !op_for(acc, #[trigger] put[i]) by {
                    assert(op_for(acc, put[i]) <==> acc == k);
                }
                lemma_untouched(acc, set_flames(s1[acc]), put);
            }
        }
        assert forall|acc: Seq<u8>| #[trigger] sets.dom().contains(acc) && (forall|i: int| 0 <= i < sorted.len() ==> (#[trigger] sorted[i]).0 != acc) implies
            inserted(sets, sorted, h).0[acc] == sets[acc] by {
            assert forall|i: int| 0 <= i < p.len() implies (#[trigger] p[i]).0 != acc by {
                assert(p[i] == sorted[i]);
            }
            assert(sorted[sorted.len() - 1].0 != acc);
        }
    }
}

/// Registering accounts none of which has a flame set gives each an empty one and keeps the others.
pub proof fn lemma_registered_sets(c: ConfigsView, sets: SetsView, new: Seq<(Seq<u8>, Option<Seq<Option<TierView>>>)>)
    requires
        forall|j: int| 0 <= j < new.len() ==> !sets.dom().contains((#[trigger] new[j]).0),
    ensures
        sets.dom().subset_of(registered(c, sets, new).1.dom()),
        forall|acc: Seq<u8>| #[trigger] registered(c, sets, new).1.dom().contains(acc) ==>
            registered(c, sets, new).1[acc] == if sets.dom().contains(acc) { sets[acc] } else { Seq::empty() },
    decreases new.len(),
{
    if new.len() > 0 {
        let p = new.drop_last();
        assert forall|j: int| 0 <= j < p.len() implies !sets.dom().contains((#[trigger] p[j]).0) by {
            assert(p[j] == new[j]);
        }
        lemma_registered_sets(c, sets, p);
        assert(new[new.len() - 1] == new.last());
    }
}

/// The writes of registering accounts store configurations only.
pub proof fn lemma_registration_ops_config(new: Seq<(Seq<u8>, Option<Seq<Option<TierView>>>)>)
    ensures
        forall|acc: Seq<u8>, i: int| 0 <= i < registration_ops(new).len() ==> !#[trigger] op_for(acc, registration_ops(new)[i]),
    decreases new.len(),
{
    if new.len() > 0 {
        let p = new.drop_last();
        lemma_registration_ops_config(p);
        let ops = registration_ops(new);
        let q = registration_ops(p);
        assert forall|acc: Seq<u8>, i: int| 0 <= i < ops.len() implies !#[trigger] op_for(acc, ops[i]) by {
            if i < q.len() {
                assert(ops[i] == q[i]);
            }
        }
    }
}

/// The writes of storing updated configurations store configurations only.
pub proof fn lemma_update_ops_config(keys: Seq<Key>, m: ConfigsView)
    ensures
        forall|acc: Seq<u8>, i: int| 0 <= i < update_ops(keys, m).len() ==> !#[trigger] op_for(acc, update_ops(keys, m)[i]),
    decreases keys.len(),
{
    if keys.len() > 0 {
        let p = keys.drop_last();
        lemma_update_ops_config(p, m);
        let ops = update_ops(keys, m);
        let q = update_ops(p, m);
        assert forall|acc: Seq<u8>, i: int| 0 <= i < ops.len() implies !#[trigger] op_for(acc, ops[i]) by {
            if i < q.len() {
                assert(ops[i] == q[i]);
            }
        }
    }
}

/// The flames stored for an account: those of its flame set, none when it has no set.
pub open spec fn stored_flames(sets: SetsView, acc: Seq<u8>) -> Map<(u64, u32), FlameView> {
    if sets.dom().contains(acc) {
        set_flames(sets[acc])
    } else {
        Map::empty()
    }
}

/// Applying a flame manager's changes writes exactly its new flames: for every account with a flame
/// set afterwards, the writes made over the flames stored for it before give the flames of its new
/// set. This holds when the newly registered accounts had no flame set, every stored flame set has
/// distinct heights below the new projector height, and every projected flame's script pubkey is
/// shorter than 2^16 bytes.
pub proof fn law_apply_writes_match_state(
    old_s: FlameManagerView,
    set_keys: Seq<Key>,
    upd_keys: Seq<Key>,
    cm: CoinManagerView,
    cm_list: Seq<Key>,
    h: u64,
    expiry: u64,
    new_s: FlameManagerView,
    produced: Seq<FMDiskOpView>,
    proj: Seq<(Key, Vec<(u32, Flame)>)>,
)
    requires
        flame_apply_safe(old_s, set_keys, upd_keys, cm, cm_list, expiry),
        flame_apply_outcome(old_s, set_keys, upd_keys, cm, cm_list, h, expiry, new_s, produced, Ok(proj)),
        forall|j: int| 0 <= j < old_s.delta.new_accounts_to_register.len() ==>
            !old_s.flame_sets.dom().contains((#[trigger] old_s.delta.new_accounts_to_register[j]).0),
        sets_below(old_s.flame_sets, h),
        forall|i: int, j: int| 0 <= i < proj.len() && 0 <= j < projection_view(proj)[i].1.len() ==>
            (#[trigger] projection_view(proj)[i].1[j]).1.spk.len() < 0x1_0000,
    ensures
        forall|acc: Seq<u8>| #[trigger] new_s.flame_sets.dom().contains(acc) ==>
            account_flames_written(acc, stored_flames(old_s.flame_sets, acc), produced) == set_flames(new_s.flame_sets[acc]),
{
    let new = old_s.delta.new_accounts_to_register;
    let (c1, s1, rest) = flame_apply_steps(old_s, set_keys, upd_keys, cm, cm_list, expiry);
    let (c2, accounts, m) = rest->Ok_0;
    let st = fund_all(fund_start(s1), accounts, m, cm, expiry)->Ok_0;
    let sorted = projection_view(proj);
    let (s6, ops6) = inserted(st.sets, sorted, h);
    lemma_registered_sets(old_s.configs, old_s.flame_sets, new);
    assert(s1 == registered(old_s.configs, old_s.flame_sets, new).1);
    assert(sets_below(s1, h)) by {
        assert forall|acc: Seq<u8>| #[trigger] s1.dom().contains(acc) implies {
            &&& heights_distinct(s1[acc])
            &&& forall|i: int| 0 <= i < s1[acc].len() ==> (#[trigger] s1[acc][i]).0 < h
        } by {
            if old_s.flame_sets.dom().contains(acc) {
                assert(s1[acc] == old_s.flame_sets[acc]);
            }
        }
    }
    assert forall|i: int| 0 <= i < accounts.len() && #[trigger] m.config(accounts[i]@) is Some implies s1.dom().contains(accounts[i]@) by {}
    lemma_fund_all_written(s1, accounts, m, cm, expiry, h);
    assert forall|i: int, j: int| 0 <= i < j < sorted.len() implies (#[trigger] sorted[i]).0 != (#[trigger] sorted[j]).0 by {
        let ks = proj.map_values(|e: (Key, Vec<(u32, Flame)>)| e.0);
        assert(ks[i] == proj[i].0 && ks[j] == proj[j].0);
        lemma_lex_irrefl(proj[i].0@);
    }
    assert forall|i: int| 0 <= i < sorted.len() implies st.sets.dom().contains((#[trigger] sorted[i]).0) by {
        assert(sorted[i].0 == proj[i].0@);
        assert(st.funds.dom().contains(proj[i].0@));
    }
    assert forall|i: int, j: int| 0 <= i < sorted.len() && 0 <= j < sorted[i].1.len() implies (#[trigger] sorted[i].1[j]).1.spk.len() < 0x1_0000 by {
        assert(projection_view(proj)[i].1[j] == sorted[i].1[j]);
    }
    assert forall|acc: Seq<u8>, i: int| #[trigger] st.sets.dom().contains(acc) && 0 <= i < st.sets[acc].len() implies (#[trigger] st.sets[acc][i]).0 != h by {}
    lemma_inserted_written(st.sets, sorted, h);
    let pre = registration_ops(new) + update_ops(upd_keys, old_s.delta.updated_flame_configs);
    lemma_registration_ops_config(new);
    lemma_update_ops_config(upd_keys, old_s.delta.updated_flame_configs);
    assert(produced == pre + st.ops + ops6);
    assert forall|acc: Seq<u8>| #[trigger] new_s.flame_sets.dom().contains(acc) implies
        account_flames_written(acc, stored_flames(old_s.flame_sets, acc), produced) == set_flames(new_s.flame_sets[acc]) by {
        assert(s1.dom().contains(acc));
        let base = stored_flames(old_s.flame_sets, acc);
        assert forall|i: int| 0 <= i < pre.len() implies !op_for(acc, #[trigger] pre[i]) by {
            let r = registration_ops(new);
            if i < r.len() {
                assert(pre[i] == r[i]);
            } else {
                assert(pre[i] == update_ops(upd_keys, old_s.delta.updated_flame_configs)[i - r.len()]);
            }
        }
        lemma_untouched(acc, base, pre);
        lemma_account_flames_written_concat(acc, base, pre + st.ops, ops6);
        lemma_account_flames_written_concat(acc, base, pre, st.ops);
        if !old_s.flame_sets.dom().contains(acc) {
            assert(s1[acc] == Seq::<(u64, Seq<(u32, FlameView)>)>::empty());
            assert(set_flames(s1[acc]) == Map::<(u64, u32), FlameView>::empty());
        }
        assert(base == set_flames(s1[acc]));
    }
}

/// An account tree with one more entry for a flame write (the flame's twelve-byte key and its
/// encoding) reads as that flame added at its height and index to what the tree read before.
pub proof fn law_account_tree_flame_entry(entries: Seq<(Vec<u8>, Vec<u8>)>, e: (Vec<u8>, Vec<u8>), h: u64, i: u32, f: FlameView)
    requires
        e.0@ == flame_db_key(h, i),
        e.1@ == flame_encode(f),
        f.spk.len() < 0x1_0000,
    ensures
        account_tree_read(entries.push(e)) == (account_tree_read(entries).0, group_push(account_tree_read(entries).1, h, (i, f))),
{
    lemma_flame_key_of(h, i);
    law_flame_round_trip(f, Seq::empty());
    assert(flame_encode(f) + Seq::<u8>::empty() =~= flame_encode(f));
    assert(entries.push(e).drop_last() =~= entries);
}

/// An account tree with one more entry for a configuration write (the one-byte zero key and the
/// configuration's encoding) reads as that configuration over what the tree read before, with the
/// same flames.
pub proof fn law_account_tree_config_entry(entries: Seq<(Vec<u8>, Vec<u8>)>, e: (Vec<u8>, Vec<u8>), cv: Seq<Option<TierView>>)
    requires
        e.0@ == seq![0u8],
        e.1@ == config_encode(cv),
        slots_encodable(cv),
    ensures
        account_tree_read(entries.push(e)) == (Some(cv), account_tree_read(entries).1),
{
    law_config_round_trip(cv);
    assert(e.1@.len() != 0) by {
        if e.1@.len() == 0 {
            assert(config_decode(e.1@) is None);
        }
    }
    assert(entries.push(e).drop_last() =~= entries);
}

} // verus!
