use super::delta::FMDeltaView;
use super::flame::{flame_encode, FlameView};
use super::flame_config::{config_encode, TierView};
use super::errors::FMApplyChangesError;
use super::flame::Flame;
use super::flame_manager::{indexed_view, FlameManagerView};
use super::flame_sorting::{flames_before, flames_sorted, keys_sorted, views};
use super::flame_selection::flames_to_fund;
use super::flame_tier::tier_amount;
use crate::codec::le_encode;
use crate::coin_manager::coin_manager::CoinManagerView;
use crate::keymap::{key_views, Key};
use vstd::prelude::*;

verus! {

/// A write to the stored flame state, produced when changes are applied.
#[derive(Debug)]
pub enum FMDiskOp {
    /// Store an account's flame configuration.
    PutFlameConfig(Key, Vec<u8>),
    /// Delete an account's flame, by its 12-byte key.
    RemoveFlame(Key, [u8; 12]),
    /// Store an account's flame under its 12-byte key.
    PutFlame(Key, [u8; 12], Vec<u8>),
}

/// The abstract content of a write.
pub enum FMDiskOpView {
    PutFlameConfig(Seq<u8>, Seq<u8>),
    RemoveFlame(Seq<u8>, Seq<u8>),
    PutFlame(Seq<u8>, Seq<u8>, Seq<u8>),
}

/// The abstract content of a write.
pub open spec fn op_view(o: FMDiskOp) -> FMDiskOpView {
    match o {
        FMDiskOp::PutFlameConfig(k, v) => FMDiskOpView::PutFlameConfig(k@, v@),
        FMDiskOp::RemoveFlame(k, f) => FMDiskOpView::RemoveFlame(k@, f@),
        FMDiskOp::PutFlame(k, f, v) => FMDiskOpView::PutFlame(k@, f@, v@),
    }
}

/// The abstract content of writes.
pub open spec fn ops_view(s: Seq<FMDiskOp>) -> Seq<FMDiskOpView> {
    s.map_values(|o: FMDiskOp| op_view(o))
}

/// The stored key of a flame: its projector height in eight little-endian bytes, then its index in
/// four.
pub open spec fn flame_db_key(h: u64, i: u32) -> Seq<u8> {
    le_encode(h as nat, 8) + le_encode(i as nat, 4)
}

/// Flame configurations of accounts.
pub type ConfigsView = Map<Seq<u8>, Seq<Option<TierView>>>;

/// An account's flame set: flames grouped by projector height.
pub type SetView = Seq<(u64, Seq<(u32, FlameView)>)>;

/// Flame sets of accounts.
pub type SetsView = Map<Seq<u8>, SetView>;

/// Permanent configurations and flame sets after registering new accounts: each gets its
/// configuration if it has one, and an empty flame set.
pub open spec fn registered(c: ConfigsView, s: SetsView, new: Seq<(Seq<u8>, Option<Seq<Option<TierView>>>)>) -> (ConfigsView, SetsView)
    decreases new.len(),
{
    if new.len() == 0 {
        (c, s)
    } else {
        let (c1, s1) = registered(c, s, new.drop_last());
        let (k, o) = new.last();
        (
            match o {
                Some(cv) => c1.insert(k, cv),
                None => c1,
            },
            s1.insert(k, Seq::empty()),
        )
    }
}

/// The writes of registering new accounts: the configuration of each that has one.
pub open spec fn registration_ops(new: Seq<(Seq<u8>, Option<Seq<Option<TierView>>>)>) -> Seq<FMDiskOpView>
    decreases new.len(),
{
    if new.len() == 0 {
        Seq::empty()
    } else {
        let (k, o) = new.last();
        registration_ops(new.drop_last()) + match o {
            Some(cv) => seq![FMDiskOpView::PutFlameConfig(k, config_encode(cv))],
            None => Seq::empty(),
        }
    }
}

/// Permanent configurations after storing updated ones, key by key; fails on the first account
/// without a permanent configuration.
pub open spec fn updates_applied(c: ConfigsView, keys: Seq<Key>, m: ConfigsView) -> Result<ConfigsView, Key>
    decreases keys.len(),
{
    if keys.len() == 0 {
        Ok(c)
    } else {
        match updates_applied(c, keys.drop_last(), m) {
            Err(k) => Err(k),
            Ok(c1) => {
                let k = keys.last();
                if c1.dom().contains(k@) {
                    Ok(c1.insert(k@, m[k@]))
                } else {
                    Err(k)
                }
            },
        }
    }
}

/// The writes of storing updated configurations.
pub open spec fn update_ops(keys: Seq<Key>, m: ConfigsView) -> Seq<FMDiskOpView>
    decreases keys.len(),
{
    if keys.len() == 0 {
        Seq::empty()
    } else {
        update_ops(keys.drop_last(), m).push(FMDiskOpView::PutFlameConfig(keys.last()@, config_encode(m[keys.last()@])))
    }
}

/// Whether a flame set holds flames projected at or below the expiry height.
pub open spec fn has_expired(set: SetView, expiry: u64) -> bool {
    exists|i: int| 0 <= i < set.len() && (#[trigger] set[i]).0 <= expiry
}

/// The accounts to refund: those the coin manager lists, then those with expired flames, in the
/// order of the flame sets, each once.
pub open spec fn coingap(cm_list: Seq<Key>, set_keys: Seq<Key>, sets: SetsView, expiry: u64) -> Seq<Key>
    decreases set_keys.len(),
{
    if set_keys.len() == 0 {
        cm_list
    } else {
        let r = coingap(cm_list, set_keys.drop_last(), sets, expiry);
        let k = set_keys.last();
        if has_expired(sets[k@], expiry) && !key_views(r).contains(k@) {
            r.push(k)
        } else {
            r
        }
    }
}

/// A flame set without its expired heights.
pub open spec fn pruned(set: SetView, expiry: u64) -> SetView
    decreases set.len(),
{
    if set.len() == 0 {
        set
    } else {
        let r = pruned(set.drop_last(), expiry);
        if set.last().0 > expiry {
            r.push(set.last())
        } else {
            r
        }
    }
}

/// Deletions of the flames of one height.
pub open spec fn remove_flame_ops(a: Seq<u8>, h: u64, fl: Seq<(u32, FlameView)>) -> Seq<FMDiskOpView>
    decreases fl.len(),
{
    if fl.len() == 0 {
        Seq::empty()
    } else {
        remove_flame_ops(a, h, fl.drop_last()).push(FMDiskOpView::RemoveFlame(a, flame_db_key(h, fl.last().0)))
    }
}

/// Deletions of the expired flames of a flame set.
pub open spec fn prune_ops(a: Seq<u8>, set: SetView, expiry: u64) -> Seq<FMDiskOpView>
    decreases set.len(),
{
    if set.len() == 0 {
        Seq::empty()
    } else {
        prune_ops(a, set.drop_last(), expiry) + if set.last().0 <= expiry {
            remove_flame_ops(a, set.last().0, set.last().1)
        } else {
            Seq::empty()
        }
    }
}

/// The total value of indexed flames.
pub open spec fn indexed_value(fl: Seq<(u32, FlameView)>) -> int
    decreases fl.len(),
{
    if fl.len() == 0 {
        0
    } else {
        indexed_value(fl.drop_last()) + tier_amount(fl.last().1.tier)
    }
}

/// The total value of a flame set.
pub open spec fn set_value(set: SetView) -> int
    decreases set.len(),
{
    if set.len() == 0 {
        0
    } else {
        set_value(set.drop_last()) + indexed_value(set.last().1)
    }
}

/// An account's target flame value: its balance plus its global shadow allocs sum in whole satoshis.
pub open spec fn target_value(cm: CoinManagerView, a: Seq<u8>) -> Option<int> {
    match (cm.account_balance(a), cm.base_global_sum(a)) {
        (Some(b), Some(g)) => Some(b + g / 100_000_000),
        _ => None,
    }
}

/// The state of funding accounts: their flame sets, the flames to fund so far with the order of their
/// accounts, and the writes so far.
pub struct FundState {
    pub sets: SetsView,
    pub funds: Map<Seq<u8>, Seq<FlameView>>,
    pub fund_keys: Seq<Key>,
    pub ops: Seq<FMDiskOpView>,
}

/// Funding one account: nothing without a configuration; otherwise its expired flames are pruned
/// (and deleted), and the flames that fund the gap between its target value and what remains are
/// recorded. Fails when the coin manager has no target value for it.
pub open spec fn fund_step(st: FundState, a: Key, m: FlameManagerView, cm: CoinManagerView, expiry: u64) -> Result<FundState, Key> {
    match m.config(a@) {
        None => Ok(st),
        Some(cfg) => {
            let set = st.sets[a@];
            let kept = pruned(set, expiry);
            match target_value(cm, a@) {
                None => Err(a),
                Some(t) => Ok(FundState {
                    sets: st.sets.insert(a@, kept),
                    funds: st.funds.insert(a@, match flames_to_fund(cfg, t as u64, set_value(kept) as u64) {
                        Some(f) => f,
                        None => Seq::empty(),
                    }),
                    fund_keys: st.fund_keys.push(a),
                    ops: st.ops + prune_ops(a@, set, expiry),
                }),
            }
        },
    }
}

/// Funding the accounts in order; the first failure stops it.
pub open spec fn fund_all(st: FundState, accounts: Seq<Key>, m: FlameManagerView, cm: CoinManagerView, expiry: u64) -> Result<FundState, Key>
    decreases accounts.len(),
{
    if accounts.len() == 0 {
        Ok(st)
    } else {
        match fund_all(st, accounts.drop_last(), m, cm, expiry) {
            Err(k) => Err(k),
            Ok(s1) => fund_step(s1, accounts.last(), m, cm, expiry),
        }
    }
}

/// Funding an account stays in range: an account with a configuration has a flame set, a target value
/// that fits in 64 bits, and its remaining flames are worth at most 2^64 - 1.
pub open spec fn fund_safe(sets: SetsView, accounts: Seq<Key>, m: FlameManagerView, cm: CoinManagerView, expiry: u64) -> bool {
    forall|i: int| 0 <= i < accounts.len() && #[trigger] m.config(accounts[i]@) is Some ==> {
        &&& sets.dom().contains(accounts[i]@)
        &&& target_value(cm, accounts[i]@) matches Some(t) ==> t <= u64::MAX
        &&& set_value(pruned(sets[accounts[i]@], expiry)) <= u64::MAX
    }
}

/// Whether an entry of a flame set is not at the given height.
pub open spec fn not_height(h: u64) -> spec_fn((u64, Seq<(u32, FlameView)>)) -> bool {
    |e: (u64, Seq<(u32, FlameView)>)| e.0 != h
}

/// A flame set with the flames of a height replaced.
pub open spec fn set_height(set: SetView, h: u64, fl: Seq<(u32, FlameView)>) -> SetView {
    set.filter(not_height(h)).push((h, fl))
}

/// The writes of storing the flames of a height.
pub open spec fn put_flame_ops(a: Seq<u8>, h: u64, fl: Seq<(u32, FlameView)>) -> Seq<FMDiskOpView>
    decreases fl.len(),
{
    if fl.len() == 0 {
        Seq::empty()
    } else {
        put_flame_ops(a, h, fl.drop_last()).push(FMDiskOpView::PutFlame(a, flame_db_key(h, fl.last().0), flame_encode(fl.last().1)))
    }
}

/// Flame sets after storing each account's new flames at the new height, with their writes.
pub open spec fn inserted(sets: SetsView, sorted: Seq<(Seq<u8>, Seq<(u32, FlameView)>)>, h: u64) -> (SetsView, Seq<FMDiskOpView>)
    decreases sorted.len(),
{
    if sorted.len() == 0 {
        (sets, Seq::empty())
    } else {
        let (s1, o1) = inserted(sets, sorted.drop_last(), h);
        let (k, fl) = sorted.last();
        (s1.insert(k, set_height(s1[k], h, fl)), o1 + put_flame_ops(k, h, fl))
    }
}

/// A projection of new flames: accounts in increasing key order, each account's flames in the flame
/// order and the same as its funded flames, numbered with consecutive indexes from zero.
pub open spec fn is_projection(r: Seq<(Key, Vec<(u32, Flame)>)>, funds: Map<Seq<u8>, Seq<FlameView>>) -> bool {
    &&& r.len() == funds.dom().len()
    &&& keys_sorted(r.map_values(|e: (Key, Vec<(u32, Flame)>)| e.0))
    &&& forall|k: Seq<u8>| funds.dom().contains(k) <==> exists|i: int| 0 <= i < r.len() && (#[trigger] r[i]).0@ == k
    &&& forall|i: int| 0 <= i < r.len() ==> {
        let fl = (#[trigger] r[i]).1@.map_values(|e: (u32, Flame)| e.1);
        &&& flames_sorted(views(fl))
        &&& views(fl).to_multiset() == funds[r[i].0@].to_multiset()
        &&& forall|j: int| 0 <= j < r[i].1@.len() ==> (#[trigger] r[i].1@[j]).0 == flames_before(r, i) + j
    }
}

/// The abstract content of a projection.
pub open spec fn projection_view(r: Seq<(Key, Vec<(u32, Flame)>)>) -> Seq<(Seq<u8>, Seq<(u32, FlameView)>)> {
    r.map_values(|e: (Key, Vec<(u32, Flame)>)| (e.0@, indexed_view(e.1@)))
}

/// The total number of funded flames, in the given account order.
pub open spec fn total_funds(funds: Map<Seq<u8>, Seq<FlameView>>, keys: Seq<Key>) -> int
    decreases keys.len(),
{
    if keys.len() == 0 {
        0
    } else {
        total_funds(funds, keys.drop_last()) + funds[keys.last()@].len()
    }
}

/// What applying a flame manager's changes does, step by step: register new accounts, store updated
/// configurations, then for each account to refund prune its expired flames and fund the gap to its
/// target value, then project the funded flames and store them at the new height. Applying stays in
/// range when every refunded account with a configuration has a flame set, a 64-bit target value and
/// remaining flames worth at most 2^64 - 1, and fewer than 2^32 flames are funded in all.
pub open spec fn flame_apply_steps(
    old_s: FlameManagerView,
    set_keys: Seq<Key>,
    upd_keys: Seq<Key>,
    cm: CoinManagerView,
    cm_list: Seq<Key>,
    expiry: u64,
) -> (ConfigsView, SetsView, Result<(ConfigsView, Seq<Key>, FlameManagerView), Key>) {
    let (c1, s1) = registered(old_s.configs, old_s.flame_sets, old_s.delta.new_accounts_to_register);
    match updates_applied(c1, upd_keys, old_s.delta.updated_flame_configs) {
        Err(k) => (c1, s1, Err(k)),
        Ok(c2) => (c1, s1, Ok((c2, coingap(cm_list, set_keys, s1, expiry), FlameManagerView { configs: c2, flame_sets: s1, ..old_s }))),
    }
}

/// The state funding starts from.
pub open spec fn fund_start(s1: SetsView) -> FundState {
    FundState { sets: s1, funds: Map::empty(), fund_keys: Seq::empty(), ops: Seq::empty() }
}

/// Applying a flame manager's changes stays in range.
pub open spec fn flame_apply_safe(
    old_s: FlameManagerView,
    set_keys: Seq<Key>,
    upd_keys: Seq<Key>,
    cm: CoinManagerView,
    cm_list: Seq<Key>,
    expiry: u64,
) -> bool {
    let (c1, s1, rest) = flame_apply_steps(old_s, set_keys, upd_keys, cm, cm_list, expiry);
    rest matches Ok((c2, accounts, m)) ==> {
        &&& fund_safe(s1, accounts, m, cm, expiry)
        &&& fund_all(fund_start(s1), accounts, m, cm, expiry) matches Ok(st) ==> total_funds(st.funds, st.fund_keys) <= u32::MAX
    }
}

/// The outcome of applying a flame manager's changes.
pub open spec fn flame_apply_outcome(
    old_s: FlameManagerView,
    set_keys: Seq<Key>,
    upd_keys: Seq<Key>,
    cm: CoinManagerView,
    cm_list: Seq<Key>,
    h: u64,
    expiry: u64,
    new_s: FlameManagerView,
    produced: Seq<FMDiskOpView>,
    r: Result<Seq<(Key, Vec<(u32, Flame)>)>, FMApplyChangesError>,
) -> bool {
    let (c1, s1, rest) = flame_apply_steps(old_s, set_keys, upd_keys, cm, cm_list, expiry);
    let new = old_s.delta.new_accounts_to_register;
    let upd = old_s.delta.updated_flame_configs;
    match rest {
        Err(k) => r matches Err(FMApplyChangesError::AccountNotFoundInMemory(kk)) && kk == k && exists|i: int| {
            &&& 0 <= i < upd_keys.len()
            &&& upd_keys[i] == k
            &&& updates_applied(c1, upd_keys.subrange(0, i), upd) == Ok::<_, Key>(new_s.configs)
            &&& !new_s.configs.dom().contains(k@)
            &&& new_s == (FlameManagerView { configs: new_s.configs, flame_sets: s1, ..old_s })
            &&& produced == registration_ops(new) + update_ops(upd_keys.subrange(0, i), upd)
        },
        Ok((c2, accounts, m)) => match fund_all(fund_start(s1), accounts, m, cm, expiry) {
            Err(k) => r matches Err(FMApplyChangesError::AccountTargetFlameValueCouldNotBeRetrieved(kk)) && kk == k && exists|j: int| {
                &&& 0 <= j < accounts.len()
                &&& accounts[j] == k
                &&& fund_all(fund_start(s1), accounts.subrange(0, j), m, cm, expiry) matches Ok(stj)
                &&& fund_step(stj, k, m, cm, expiry) is Err
                &&& new_s == (FlameManagerView { configs: c2, flame_sets: stj.sets.insert(k@, pruned(stj.sets[k@], expiry)), ..old_s })
                &&& produced == registration_ops(new) + update_ops(upd_keys, upd) + stj.ops + prune_ops(k@, stj.sets[k@], expiry)
            },
            Ok(st) => r matches Ok(proj) && is_projection(proj, st.funds) && {
                let (s6, ops6) = inserted(st.sets, projection_view(proj), h);
                &&& new_s == (FlameManagerView { configs: c2, flame_sets: s6, ..old_s })
                &&& produced == registration_ops(old_s.delta.new_accounts_to_register)
                    + update_ops(upd_keys, old_s.delta.updated_flame_configs) + st.ops + ops6
            },
        },
    }
}

} // verus!
