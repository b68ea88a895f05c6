use super::delta::{config_map_view, FMDeltaView};
use super::errors::FMConstructionError;
use super::flame::{flame_decode, Flame, FlameView};
use super::flame_config::{config_decode, FMAccountFlameConfig, TierView};
use super::flame_manager::{indexed_view, set_view, sets_view, AccountFlameSet, FlameManager, FlameManagerView, IndexedFlame};
use crate::codec::{bytes_copy, bytes_to_array32, le_value, u32_from_le_bytes, u64_from_le_bytes};
use crate::coin_manager::load::{NamedTree, TreeEntries};
use crate::keymap::{Key, KeyMap};
use vstd::prelude::*;

verus! {

/// Indexed flames with one more, placed after every flame whose index is not larger: the step of a
/// stable sort by index.
pub open spec fn insert_by_index(s: Seq<(u32, FlameView)>, e: (u32, FlameView)) -> Seq<(u32, FlameView)>
    decreases s.len(),
{
    if s.len() == 0 {
        seq![e]
    } else if s.last().0 <= e.0 {
        s.push(e)
    } else {
        insert_by_index(s.drop_last(), e).push(s.last())
    }
}

/// Indexed flames sorted by index, flames of equal index kept in their order.
pub open spec fn sort_by_index(s: Seq<(u32, FlameView)>) -> Seq<(u32, FlameView)>
    decreases s.len(),
{
    if s.len() == 0 {
        Seq::empty()
    } else {
        insert_by_index(sort_by_index(s.drop_last()), s.last())
    }
}

/// The position of the group of a height, if there is one.
pub open spec fn group_of(groups: Seq<(u64, Seq<(u32, FlameView)>)>, h: u64) -> Option<int>
    decreases groups.len(),
{
    if groups.len() == 0 {
        None
    } else {
        match group_of(groups.drop_last(), h) {
            Some(i) => Some(i),
            None => if groups.last().0 == h {
                Some(groups.len() - 1)
            } else {
                None
            },
        }
    }
}

/// Flames grouped by height with one more flame: added to its height's group, or to a new group at
/// the end.
pub open spec fn group_push(groups: Seq<(u64, Seq<(u32, FlameView)>)>, h: u64, x: (u32, FlameView)) -> Seq<(u64, Seq<(u32, FlameView)>)> {
    match group_of(groups, h) {
        Some(i) => groups.update(i, (h, groups[i].1.push(x))),
        None => groups.push((h, seq![x])),
    }
}

/// What one well-formed entry of an account tree is: the flame configuration (with its stored
/// bytes; `None` when they are empty), or a flame with its projector height and index.
pub enum AccountEntry {
    Config(Option<Seq<Option<TierView>>>),
    Projected(u64, u32, FlameView),
}

/// What an entry of an account tree holds, if it is well formed: a one-byte zero key with empty or
/// valid configuration bytes, or a twelve-byte key (height, then index, little-endian) with a valid
/// flame.
pub open spec fn account_entry(e: (Vec<u8>, Vec<u8>)) -> Option<AccountEntry> {
    if e.0@.len() == 1 && e.0@[0] == 0 {
        if e.1@.len() == 0 {
            Some(AccountEntry::Config(None))
        } else {
            match config_decode(e.1@) {
                Some(c) => Some(AccountEntry::Config(Some(c))),
                None => None,
            }
        }
    } else if e.0@.len() != 12 {
        None
    } else {
        match flame_decode(e.1@) {
            Some(f) => Some(AccountEntry::Projected(
                le_value(e.0@.subrange(0, 8)) as u64,
                le_value(e.0@.subrange(8, 12)) as u32,
                f,
            )),
            None => None,
        }
    }
}

/// The error reported for an ill-formed account tree entry.
pub open spec fn account_entry_fault(k: Seq<u8>, e: (Vec<u8>, Vec<u8>), err: FMConstructionError) -> bool {
    if e.0@.len() == 1 && e.0@[0] == 0 {
        err matches FMConstructionError::UnableToDeserializeAccountFlameConfigBytesFromTreeValue(kk, v) && kk@ == k && v@ == e.1@
    } else if e.0@.len() != 12 {
        err matches FMConstructionError::InvalidAccountDbKeyByte(kk, v) && kk@ == k && v@ == e.0@
    } else {
        err matches FMConstructionError::UnableToDeserializeAccountFlameSetBytesFromTreeValue(kk, v) && kk@ == k && v@ == e.1@
    }
}

/// The configuration and grouped flames that the entries of an account tree hold, read in order;
/// a later configuration replaces an earlier one, an empty one is ignored.
pub open spec fn account_tree_read(entries: Seq<(Vec<u8>, Vec<u8>)>) -> (Option<Seq<Option<TierView>>>, Seq<(u64, Seq<(u32, FlameView)>)>)
    decreases entries.len(),
{
    if entries.len() == 0 {
        (None, Seq::empty())
    } else {
        let (c, g) = account_tree_read(entries.drop_last());
        match account_entry(entries.last()) {
            Some(AccountEntry::Config(Some(nc))) => (Some(nc), g),
            Some(AccountEntry::Projected(h, i, f)) => (c, group_push(g, h, (i, f))),
            _ => (c, g),
        }
    }
}

/// The flame set an account tree holds: its groups, each sorted by index.
pub open spec fn sorted_groups(g: Seq<(u64, Seq<(u32, FlameView)>)>) -> Seq<(u64, Seq<(u32, FlameView)>)> {
    g.map_values(|e: (u64, Seq<(u32, FlameView)>)| (e.0, sort_by_index(e.1)))
}

/// A stored account tree can be loaded: a tree whose name is not an account key is skipped, every
/// entry of another is well formed.
pub open spec fn account_tree_valid(t: NamedTree) -> bool {
    t.0@.len() == 32 ==> forall|i: int| 0 <= i < t.1@.len() ==> #[trigger] account_entry(t.1@[i]) is Some
}

/// `i` is the first stored tree that cannot be loaded.
pub open spec fn first_invalid_tree(trees: Seq<NamedTree>, i: int) -> bool {
    &&& 0 <= i < trees.len()
    &&& forall|j: int| 0 <= j < i ==> account_tree_valid(#[trigger] trees[j])
    &&& !account_tree_valid(trees[i])
}

/// The error reported for a tree that cannot be loaded: its first ill-formed entry.
pub open spec fn tree_error(t: NamedTree, e: FMConstructionError) -> bool {
    exists|i: int| 0 <= i < t.1@.len() && (forall|j: int| 0 <= j < i ==> #[trigger] account_entry(t.1@[j]) is Some)
        && account_entry(t.1@[i]) is None && #[trigger] account_entry_fault(t.0@, t.1@[i], e)
}

/// The flame configurations that the stored trees hold.
pub open spec fn configs_loaded(trees: Seq<NamedTree>) -> Map<Seq<u8>, Seq<Option<TierView>>>
    decreases trees.len(),
{
    if trees.len() == 0 {
        Map::empty()
    } else {
        let m = configs_loaded(trees.drop_last());
        let t = trees.last();
        if t.0@.len() == 32 && account_tree_read(t.1@).0 is Some {
            m.insert(t.0@, account_tree_read(t.1@).0->Some_0)
        } else {
            m
        }
    }
}

/// The flame sets that the stored trees hold, for accounts with at least one flame.
pub open spec fn sets_loaded(trees: Seq<NamedTree>) -> Map<Seq<u8>, Seq<(u64, Seq<(u32, FlameView)>)>>
    decreases trees.len(),
{
    if trees.len() == 0 {
        Map::empty()
    } else {
        let m = sets_loaded(trees.drop_last());
        let t = trees.last();
        if t.0@.len() == 32 && account_tree_read(t.1@).1.len() > 0 {
            m.insert(t.0@, sorted_groups(account_tree_read(t.1@).1))
        } else {
            m
        }
    }
}

/// Inserts an indexed flame into flames sorted by index, after those whose index is not larger.
fn insert_indexed(s: &mut Vec<IndexedFlame>, e: IndexedFlame)
    ensures
        indexed_view(final(s)@) == insert_by_index(indexed_view(old(s)@), (e.0, e.1@)),
    decreases old(s)@.len(),
{
    let ghost s0 = indexed_view(s@);
    if s.len() == 0 {
        s.push(e);
        assert(indexed_view(s@) =~= seq![(e.0, e.1@)]);
        return;
    }
    let last_index = s[s.len() - 1].0;
    if last_index <= e.0 {
        let ghost ev = (e.0, e.1@);
        s.push(e);
        assert(indexed_view(s@) =~= s0.push(ev));
        return;
    }
    let last = s.pop().unwrap();
    proof {
        assert(indexed_view(s@) =~= s0.drop_last());
    }
    let ghost lv = (last.0, last.1@);
    insert_indexed(s, e);
    let ghost mid = indexed_view(s@);
    s.push(last);
    assert(indexed_view(s@) =~= mid.push(lv));
}

/// Sorts indexed flames by index, flames of equal index kept in their order.
fn sort_indexed(s: Vec<IndexedFlame>) -> (r: Vec<IndexedFlame>)
    ensures
        indexed_view(r@) == sort_by_index(indexed_view(s@)),
{
    let ghost sv = indexed_view(s@);
    assert(sv.len() == s@.len());
    let mut out: Vec<IndexedFlame> = Vec::new();
    let mut rest = s;
    let n = rest.len();
    let mut i: usize = 0;
    proof {
        assert(indexed_view(out@) =~= sort_by_index(sv.subrange(0, 0)));
    }
    while i < n
        invariant
            0 <= i <= n,
            n == sv.len(),
            indexed_view(rest@) == sv.subrange(i as int, n as int),
            rest@.len() == n - i,
            indexed_view(out@) == sort_by_index(sv.subrange(0, i as int)),
        decreases n - i,
    {
        let ghost r0 = rest@;
        let e = rest.remove(0);
        proof {
            assert(indexed_view(r0)[0] == (e.0, e.1@));
            assert(indexed_view(rest@) =~= indexed_view(r0).subrange(1, indexed_view(r0).len() as int));
        }
        proof {
            assert(e.0 == sv[i as int].0 && e.1@ == sv[i as int].1);
            assert(sv.subrange(0, i + 1).drop_last() =~= sv.subrange(0, i as int));
            assert(sv.subrange(0, i + 1).last() == sv[i as int]);
        }
        insert_indexed(&mut out, e);
        i = i + 1;
    }
    proof {
        assert(sv.subrange(0, n as int) =~= sv);
    }
    out
}

/// The position of a height's group.
fn find_group(groups: &AccountFlameSet, h: u64) -> (r: Option<usize>)
    ensures
        match r {
            Some(i) => group_of(set_view(groups@), h) == Some(i as int),
            None => group_of(set_view(groups@), h) is None,
        },
{
    let n = groups.len();
    let mut i: usize = 0;
    while i < n
        invariant
            0 <= i <= n,
            n == groups@.len(),
            group_of(set_view(groups@).subrange(0, i as int), h) is None,
        decreases n - i,
    {
        proof {
            assert(set_view(groups@).subrange(0, i + 1).drop_last() =~= set_view(groups@).subrange(0, i as int));
        }
        if groups[i].0 == h {
            proof {
                lemma_group_of_prefix(set_view(groups@), i as int + 1, h);
            }
            return Some(i);
        }
        i = i + 1;
    }
    proof {
        assert(set_view(groups@).subrange(0, n as int) =~= set_view(groups@));
    }
    None
}

/// A height found in a prefix of the groups is found at the same place in all of them.
proof fn lemma_group_of_prefix(g: Seq<(u64, Seq<(u32, FlameView)>)>, i: int, h: u64)
    requires
        0 <= i <= g.len(),
        group_of(g.subrange(0, i), h) is Some,
    ensures
        group_of(g, h) == group_of(g.subrange(0, i), h),
    decreases g.len() - i,
{
    if i < g.len() {
        assert(g.subrange(0, i + 1).drop_last() =~= g.subrange(0, i));
        lemma_group_of_prefix(g, i + 1, h);
    } else {
        assert(g.subrange(0, i) =~= g);
    }
}

/// The position found for a height holds that height.
proof fn lemma_group_of_height(g: Seq<(u64, Seq<(u32, FlameView)>)>, h: u64)
    ensures
        group_of(g, h) matches Some(i) ==> 0 <= i < g.len() && g[i].0 == h,
    decreases g.len(),
{
    if g.len() > 0 {
        lemma_group_of_height(g.drop_last(), h);
    }
}

/// Adds a flame to its height's group, or to a new group at the end.
fn push_grouped(groups: &mut AccountFlameSet, h: u64, i: u32, f: Flame)
    ensures
        set_view(final(groups)@) == group_push(set_view(old(groups)@), h, (i, f@)),
{
    let ghost g0 = set_view(groups@);
    let ghost fv = f@;
    proof {
        lemma_group_of_height(g0, h);
    }
    match find_group(groups, h) {
        Some(p) => {
            let mut list: Vec<IndexedFlame> = Vec::new();
            let mut entry: (u64, Vec<IndexedFlame>) = (h, list);
            groups.set_and_swap(p, &mut entry);
            let (hh, mut fl) = entry;
            let ghost fl0 = indexed_view(fl@);
            fl.push((i, f));
            let mut back: (u64, Vec<IndexedFlame>) = (hh, fl);
            groups.set_and_swap(p, &mut back);
            proof {
                assert(indexed_view(fl@) =~= fl0.push((i, fv)));
                assert(set_view(groups@) =~= g0.update(p as int, (h, g0[p as int].1.push((i, fv)))));
            }
        },
        None => {
            let mut fl: Vec<IndexedFlame> = Vec::new();
            fl.push((i, f));
            groups.push((h, fl));
            proof {
                assert(indexed_view(fl@) =~= seq![(i, fv)]);
                assert(set_view(groups@) =~= g0.push((h, seq![(i, fv)])));
            }
        },
    }
}

/// Sorts every group by index.
fn sort_groups(groups: AccountFlameSet) -> (r: AccountFlameSet)
    ensures
        set_view(r@) == sorted_groups(set_view(groups@)),
{
    let ghost gv = set_view(groups@);
    assert(gv.len() == groups@.len());
    let mut out: AccountFlameSet = Vec::new();
    let mut rest = groups;
    let n = rest.len();
    let mut i: usize = 0;
    while i < n
        invariant
            0 <= i <= n,
            n == gv.len(),
            set_view(rest@) == gv.subrange(i as int, n as int),
            rest@.len() == n - i,
            set_view(out@) == sorted_groups(gv.subrange(0, i as int)),
        decreases n - i,
    {
        let ghost r0 = rest@;
        let (h, fl) = rest.remove(0);
        proof {
            assert(set_view(r0)[0] == (h, indexed_view(fl@)));
            assert(set_view(rest@) =~= set_view(r0).subrange(1, set_view(r0).len() as int));
        }
        proof {
            assert(h == gv[i as int].0 && indexed_view(fl@) == gv[i as int].1);
        }
        let sorted = sort_indexed(fl);
        let ghost before = set_view(out@);
        out.push((h, sorted));
        proof {
            assert(set_view(out@) =~= before.push((h, sort_by_index(gv[i as int].1))));
            assert(sorted_groups(gv.subrange(0, i + 1)) =~= sorted_groups(gv.subrange(0, i as int)).push((h, sort_by_index(gv[i as int].1))));
        }
        i = i + 1;
    }
    proof {
        assert(gv.subrange(0, n as int) =~= gv);
    }
    out
}

/// Reads the entries of an account tree: its flame configuration, if it has a nonempty one, and its
/// flames grouped by height, each group sorted by index; fails on the first ill-formed entry.
pub fn parse_account_tree(account_key: Key, entries: &TreeEntries) -> (r: Result<(Option<FMAccountFlameConfig>, AccountFlameSet), FMConstructionError>)
    ensures
        match r {
            Ok((c, s)) => (forall|i: int| 0 <= i < entries@.len() ==> #[trigger] account_entry(entries@[i]) is Some)
                && (match c {
                    Some(cc) => account_tree_read(entries@).0 == Some(cc@),
                    None => account_tree_read(entries@).0 is None,
                })
                && set_view(s@) == sorted_groups(account_tree_read(entries@).1),
            Err(e) => exists|i: int| 0 <= i < entries@.len() && (forall|j: int| 0 <= j < i ==> #[trigger] account_entry(entries@[j]) is Some)
                && account_entry(entries@[i]) is None && #[trigger] account_entry_fault(account_key@, entries@[i], e),
        },
{
    let mut config: Option<FMAccountFlameConfig> = None;
    let mut groups: AccountFlameSet = Vec::new();
    let n = entries.len();
    let mut i: usize = 0;
    while i < n
        invariant
            0 <= i <= n,
            n == entries@.len(),
            forall|j: int| 0 <= j < i ==> #[trigger] account_entry(entries@[j]) is Some,
            match config {
                Some(cc) => account_tree_read(entries@.subrange(0, i as int)).0 == Some(cc@),
                None => account_tree_read(entries@.subrange(0, i as int)).0 is None,
            },
            set_view(groups@) == account_tree_read(entries@.subrange(0, i as int)).1,
        decreases n - i,
    {
        let key = &entries[i].0;
        let value = &entries[i].1;
        proof {
            assert(entries@.subrange(0, i + 1).drop_last() =~= entries@.subrange(0, i as int));
            assert(entries@.subrange(0, i + 1).last() == entries@[i as int]);
        }
        if key.len() == 1 && key[0] == 0 {
            if value.len() > 0 {
                match FMAccountFlameConfig::from_db_value_bytes(value.as_slice()) {
                    Some(c) => {
                        config = Some(c);
                    },
                    None => {
                        let err = FMConstructionError::UnableToDeserializeAccountFlameConfigBytesFromTreeValue(account_key, bytes_copy(value));
                        proof {
                            assert(account_entry(entries@[i as int]) is None);
                            assert(account_entry_fault(account_key@, entries@[i as int], err));
                        }
                        return Err(err);
                    },
                }
            }
        } else {
            if key.len() != 12 {
                let err = FMConstructionError::InvalidAccountDbKeyByte(account_key, bytes_copy(key));
                proof {
                    assert(account_entry(entries@[i as int]) is None);
                    assert(account_entry_fault(account_key@, entries@[i as int], err));
                }
                return Err(err);
            }
            let h = u64_from_le_bytes(&key.as_slice()[0..8]);
            let x = u32_from_le_bytes(&key.as_slice()[8..12]);
            let f = match Flame::from_bytes(value.as_slice()) {
                Some(f) => f,
                None => {
                    let err = FMConstructionError::UnableToDeserializeAccountFlameSetBytesFromTreeValue(account_key, bytes_copy(value));
                    proof {
                        assert(account_entry(entries@[i as int]) is None);
                        assert(account_entry_fault(account_key@, entries@[i as int], err));
                    }
                    return Err(err);
                },
            };
            match (h, x) {
                (Some(h), Some(x)) => {
                    push_grouped(&mut groups, h, x, f);
                },
                _ => {},
            }
        }
        i = i + 1;
    }
    proof {
        assert(entries@.subrange(0, n as int) =~= entries@);
    }
    Ok((config, sort_groups(groups)))
}

impl FlameManager {
    /// Rebuilds a flame manager from its stored account trees, each named by its account key; trees
    /// whose name is not 32 bytes long are skipped. An account gets a configuration when its tree
    /// holds a nonempty one, and a flame set when its tree holds a flame. Fails on the first
    /// ill-formed entry.
    pub fn new(trees: &Vec<NamedTree>) -> (r: Result<FlameManager, FMConstructionError>)
        ensures
            match r {
                Ok(fm) => (forall|i: int| 0 <= i < trees@.len() ==> account_tree_valid(#[trigger] trees@[i]))
                    && fm@ == (FlameManagerView {
                        configs: configs_loaded(trees@),
                        flame_sets: sets_loaded(trees@),
                        delta: FMDeltaView::empty(),
                        backup: FMDeltaView::empty(),
                    }),
                Err(e) => exists|i: int| #[trigger] first_invalid_tree(trees@, i) && tree_error(trees@[i], e),
            },
    {
        let mut configs: KeyMap<FMAccountFlameConfig> = KeyMap::new();
        let mut sets: KeyMap<AccountFlameSet> = KeyMap::new();
        let n = trees.len();
        let mut i: usize = 0;
        proof {
            assert(config_map_view(configs@) =~= Map::empty());
            assert(sets_view(sets@) =~= Map::empty());
        }
        while i < n
            invariant
                0 <= i <= n,
                n == trees@.len(),
                forall|j: int| 0 <= j < i ==> account_tree_valid(#[trigger] trees@[j]),
                config_map_view(configs@) == configs_loaded(trees@.subrange(0, i as int)),
                sets_view(sets@) == sets_loaded(trees@.subrange(0, i as int)),
            decreases n - i,
        {
            proof {
                assert(trees@.subrange(0, i + 1).drop_last() =~= trees@.subrange(0, i as int));
                assert(trees@.subrange(0, i + 1).last() == trees@[i as int]);
            }
            match bytes_to_array32(&trees[i].0) {
                None => {},
                Some(k) => {
                    match parse_account_tree(k, &trees[i].1) {
                        Err(e) => {
                            proof {
                                assert(first_invalid_tree(trees@, i as int));
                            }
                            return Err(e);
                        },
                        Ok((c, s)) => {
                            let ghost read = account_tree_read(trees@[i as int].1@);
                            match c {
                                Some(cc) => {
                                    let ghost before = configs@;
                                    let ghost cv = cc@;
                                    configs.insert(k, cc);
                                    proof {
                                        assert(config_map_view(configs@) =~= config_map_view(before).insert(k@, cv));
                                    }
                                },
                                None => {},
                            }
                            if s.len() > 0 {
                                let ghost before = sets@;
                                let ghost sv = set_view(s@);
                                sets.insert(k, s);
                                proof {
                                    assert(sets_view(sets@) =~= sets_view(before).insert(k@, sv));
                                    assert(set_view(s@).len() == s@.len());
                                    assert(sorted_groups(read.1).len() == read.1.len());
                                }
                            } else {
                                proof {
                                    assert(set_view(s@).len() == s@.len());
                                    assert(sorted_groups(read.1).len() == read.1.len());
                                }
                            }
                        },
                    }
                },
            }
            i = i + 1;
        }
        proof {
            assert(trees@.subrange(0, n as int) =~= trees@);
        }
        Ok(FlameManager::from_parts(configs, sets))
    }
}

} // verus!
