use super::delta::{config_map_view, config_opt_copy, config_opt_view, new_accounts_view, FMDelta, FMDeltaView};
use super::errors::{FMRegisterAccountError, FMUpdateAccountFlameConfigError};
use super::flame::{Flame, FlameView};
use super::flame_config::{FMAccountFlameConfig, TierView};
use super::apply::{apply_updates, coingap_list, flame_set_value, new_keys, prune_set, register_new, set_height_exec, set_value_in_range};
use super::apply_spec::{
    coingap, flame_apply_outcome, flame_apply_safe, flame_apply_steps, fund_all, fund_safe, fund_start,
    fund_step, has_expired, inserted, is_projection, ops_view, projection_view, pruned, registered,
    prune_ops, registration_ops, set_value, target_value, total_funds, update_ops, updates_applied, FMDiskOp, FMDiskOpView, FundState, SetsView,
};
use super::errors::FMApplyChangesError;
use super::flame_selection::{flame_views, flames_to_fund, return_flames_to_fund};
use super::flame_sorting::{sort_flames, total_flames, views};
use crate::coin_manager::coin_manager::CoinManager;
use crate::coin_manager::delta::{affected_list, dedup_append};
use crate::keymap::{key_eq, key_views, keys_contain, Key, KeyMap};
use vstd::prelude::*;

verus! {

/// A flame with its index in its projection.
pub type IndexedFlame = (u32, Flame);

/// The flames of an account, grouped by the projector height they were projected at.
pub type AccountFlameSet = Vec<(u64, Vec<IndexedFlame>)>;

/// The abstract content of indexed flames.
pub open spec fn indexed_view(s: Seq<IndexedFlame>) -> Seq<(u32, FlameView)> {
    s.map_values(|e: IndexedFlame| (e.0, e.1@))
}

/// The abstract content of an account's flame set.
pub open spec fn set_view(s: Seq<(u64, Vec<IndexedFlame>)>) -> Seq<(u64, Seq<(u32, FlameView)>)> {
    s.map_values(|e: (u64, Vec<IndexedFlame>)| (e.0, indexed_view(e.1@)))
}

/// The abstract content of the flame sets of accounts.
pub open spec fn sets_view(m: Map<Seq<u8>, AccountFlameSet>) -> Map<Seq<u8>, Seq<(u64, Seq<(u32, FlameView)>)>> {
    m.map_values(|s: AccountFlameSet| set_view(s@))
}

/// The abstract state of a flame manager.
#[verifier::ext_equal]
pub struct FlameManagerView {
    /// Permanent flame configurations of accounts.
    pub configs: Map<Seq<u8>, Seq<Option<TierView>>>,
    /// Permanent flame sets of accounts.
    pub flame_sets: Map<Seq<u8>, Seq<(u64, Seq<(u32, FlameView)>)>>,
    /// Ephemeral changes.
    pub delta: FMDeltaView,
    /// Backup of the ephemeral changes, for rollback.
    pub backup: FMDeltaView,
}

/// The configuration given to the first ephemeral registration of an account, if it is registered.
pub open spec fn first_registration(s: Seq<(Seq<u8>, Option<Seq<Option<TierView>>>)>, k: Seq<u8>) -> Option<Option<Seq<Option<TierView>>>>
    decreases s.len(),
{
    if s.len() == 0 {
        None
    } else if s[0].0 == k {
        Some(s[0].1)
    } else {
        first_registration(s.subrange(1, s.len() as int), k)
    }
}

impl FlameManagerView {
    /// An account's flame configuration: the ephemerally updated one, else the one given at its
    /// ephemeral registration, else the permanent one.
    pub open spec fn config(self, k: Seq<u8>) -> Option<Seq<Option<TierView>>> {
        if self.delta.updated_flame_configs.dom().contains(k) {
            Some(self.delta.updated_flame_configs[k])
        } else if first_registration(self.delta.new_accounts_to_register, k) is Some
            && first_registration(self.delta.new_accounts_to_register, k)->Some_0 is Some {
            first_registration(self.delta.new_accounts_to_register, k)->Some_0
        } else if self.configs.dom().contains(k) {
            Some(self.configs[k])
        } else {
            None
        }
    }
}

/// Keeps accounts' flame configurations and projected flames, with ephemeral changes on top.
pub struct FlameManager {
    in_memory_account_flame_configs: KeyMap<FMAccountFlameConfig>,
    in_memory_flame_set: KeyMap<AccountFlameSet>,
    delta: FMDelta,
    backup_of_delta: FMDelta,
}

impl View for FlameManager {
    type V = FlameManagerView;

    closed spec fn view(&self) -> FlameManagerView {
        FlameManagerView {
            configs: config_map_view(self.in_memory_account_flame_configs@),
            flame_sets: sets_view(self.in_memory_flame_set@),
            delta: self.delta@,
            backup: self.backup_of_delta@,
        }
    }
}

/// A copy of indexed flames.
pub fn indexed_copy(s: &Vec<IndexedFlame>) -> (r: Vec<IndexedFlame>)
    ensures
        indexed_view(r@) == indexed_view(s@),
{
    let mut r: Vec<IndexedFlame> = Vec::new();
    let n = s.len();
    let mut i: usize = 0;
    while i < n
        invariant
            0 <= i <= n,
            n == s@.len(),
            indexed_view(r@) == indexed_view(s@).subrange(0, i as int),
        decreases n - i,
    {
        let ghost before = indexed_view(r@);
        let f = s[i].1.duplicate();
        r.push((s[i].0, f));
        proof {
            assert(indexed_view(r@) =~= before.push((s@[i as int].0, s@[i as int].1@)));
            assert(indexed_view(s@).subrange(0, i + 1) =~= indexed_view(s@).subrange(0, i as int).push((s@[i as int].0, s@[i as int].1@)));
        }
        i = i + 1;
    }
    proof {
        assert(indexed_view(s@).subrange(0, n as int) =~= indexed_view(s@));
    }
    r
}

/// A copy of an account's flame set.
pub fn set_copy(s: &AccountFlameSet) -> (r: AccountFlameSet)
    ensures
        set_view(r@) == set_view(s@),
{
    let mut r: AccountFlameSet = Vec::new();
    let n = s.len();
    let mut i: usize = 0;
    while i < n
        invariant
            0 <= i <= n,
            n == s@.len(),
            set_view(r@) == set_view(s@).subrange(0, i as int),
        decreases n - i,
    {
        let ghost before = set_view(r@);
        let fl = indexed_copy(&s[i].1);
        r.push((s[i].0, fl));
        proof {
            assert(set_view(r@) =~= before.push((s@[i as int].0, indexed_view(s@[i as int].1@))));
            assert(set_view(s@).subrange(0, i + 1) =~= set_view(s@).subrange(0, i as int).push((s@[i as int].0, indexed_view(s@[i as int].1@))));
        }
        i = i + 1;
    }
    proof {
        assert(set_view(s@).subrange(0, n as int) =~= set_view(s@));
    }
    r
}

/// A copy of a map of flame configurations, in the same key order.
pub fn copy_config_map(m: &KeyMap<FMAccountFlameConfig>) -> (r: KeyMap<FMAccountFlameConfig>)
    ensures
        config_map_view(r@) == config_map_view(m@),
        r.raw_keys() == m.raw_keys(),
{
    let n = m.len();
    let mut r: KeyMap<FMAccountFlameConfig> = KeyMap::new();
    let mut i: usize = 0;
    while i < n
        invariant
            0 <= i <= n,
            n == m.key_seq().len(),
            m.key_seq().no_duplicates(),
            forall|k: Seq<u8>| m@.dom().contains(k) <==> m.key_seq().contains(k),
            r.raw_keys() == m.raw_keys().subrange(0, i as int),
            forall|k: Seq<u8>| r@.dom().contains(k) <==> m.key_seq().subrange(0, i as int).contains(k),
            forall|k: Seq<u8>| #[trigger] r@.dom().contains(k) ==> r@[k]@ == m@[k]@,
        decreases n - i,
    {
        let k = m.key_at(i);
        let v = m.value_at(i).duplicate();
        proof {
            if m.key_seq().subrange(0, i as int).contains(k@) {
                let j = choose|j: int| 0 <= j < i && m.key_seq().subrange(0, i as int)[j] == k@;
                assert(m.key_seq()[j] == m.key_seq()[i as int]);
            }
        }
        r.insert(k, v);
        proof {
            assert(m.key_seq().subrange(0, i + 1) =~= m.key_seq().subrange(0, i as int).push(k@));
            assert(m.raw_keys().subrange(0, i + 1) =~= m.raw_keys().subrange(0, i as int).push(k));
            crate::keymap::lemma_push_contains(m.key_seq().subrange(0, i as int), k@);
        }
        i = i + 1;
    }
    assert(m.key_seq().subrange(0, n as int) =~= m.key_seq());
    assert(m.raw_keys().subrange(0, n as int) =~= m.raw_keys());
    assert(config_map_view(r@) =~= config_map_view(m@));
    r
}

/// A copy of a map of flame sets, in the same key order.
pub fn copy_set_map(m: &KeyMap<AccountFlameSet>) -> (r: KeyMap<AccountFlameSet>)
    ensures
        sets_view(r@) == sets_view(m@),
        r.raw_keys() == m.raw_keys(),
{
    let n = m.len();
    let mut r: KeyMap<AccountFlameSet> = KeyMap::new();
    let mut i: usize = 0;
    while i < n
        invariant
            0 <= i <= n,
            n == m.key_seq().len(),
            m.key_seq().no_duplicates(),
            forall|k: Seq<u8>| m@.dom().contains(k) <==> m.key_seq().contains(k),
            r.raw_keys() == m.raw_keys().subrange(0, i as int),
            forall|k: Seq<u8>| r@.dom().contains(k) <==> m.key_seq().subrange(0, i as int).contains(k),
            forall|k: Seq<u8>| #[trigger] r@.dom().contains(k) ==> set_view(r@[k]@) == set_view(m@[k]@),
        decreases n - i,
    {
        let k = m.key_at(i);
        let v = set_copy(m.value_at(i));
        proof {
            if m.key_seq().subrange(0, i as int).contains(k@) {
                let j = choose|j: int| 0 <= j < i && m.key_seq().subrange(0, i as int)[j] == k@;
                assert(m.key_seq()[j] == m.key_seq()[i as int]);
            }
        }
        r.insert(k, v);
        proof {
            assert(m.key_seq().subrange(0, i + 1) =~= m.key_seq().subrange(0, i as int).push(k@));
            assert(m.raw_keys().subrange(0, i + 1) =~= m.raw_keys().subrange(0, i as int).push(k));
            crate::keymap::lemma_push_contains(m.key_seq().subrange(0, i as int), k@);
        }
        i = i + 1;
    }
    assert(m.key_seq().subrange(0, n as int) =~= m.key_seq());
    assert(m.raw_keys().subrange(0, n as int) =~= m.raw_keys());
    assert(sets_view(r@) =~= sets_view(m@));
    r
}

impl FlameManager {
    /// A flame manager over the given permanent configurations and flame sets, with no ephemeral
    /// change.
    pub fn from_parts(configs: KeyMap<FMAccountFlameConfig>, flame_sets: KeyMap<AccountFlameSet>) -> (r: Self)
        ensures
            r@ == (FlameManagerView {
                configs: config_map_view(configs@),
                flame_sets: sets_view(flame_sets@),
                delta: FMDeltaView::empty(),
                backup: FMDeltaView::empty(),
            }),
    {
        FlameManager {
            in_memory_account_flame_configs: configs,
            in_memory_flame_set: flame_sets,
            delta: FMDelta::fresh_new(),
            backup_of_delta: FMDelta::fresh_new(),
        }
    }

    /// Prepares the flame manager before each execution: backs up the delta.
    pub fn pre_execution(&mut self)
        ensures
            final(self)@ == (FlameManagerView { backup: old(self)@.delta, ..old(self)@ }),
    {
        self.backup_of_delta = self.delta.duplicate();
    }

    /// Whether an account is permanently registered, that is has a permanent flame configuration.
    pub fn is_account_registered(&self, account_key: Key) -> (r: bool)
        ensures
            r == self@.configs.dom().contains(account_key@),
    {
        self.in_memory_account_flame_configs.contains_key(&account_key)
    }

    /// An account's flame configuration: the ephemerally updated one, else the one given at its
    /// ephemeral registration, else the permanent one.
    pub fn get_account_flame_config(&self, account_key: Key) -> (r: Option<FMAccountFlameConfig>)
        ensures
            config_opt_view(r) == self@.config(account_key@),
    {
        if let Some(c) = self.delta.updated_flame_configs.get(&account_key) {
            return Some(c.duplicate());
        }
        let n = self.delta.new_accounts_to_register.len();
        let ghost s = self@.delta.new_accounts_to_register;
        let mut i: usize = 0;
        let mut stop = false;
        proof {
            assert(s.subrange(0, n as int) =~= s);
        }
        while i < n && !stop
            invariant
                0 <= i <= n,
                n == s.len(),
                s == self@.delta.new_accounts_to_register,
                !self@.delta.updated_flame_configs.dom().contains(account_key@),
                !stop ==> first_registration(s, account_key@) == first_registration(s.subrange(i as int, n as int), account_key@),
                stop ==> first_registration(s, account_key@) == Some(None::<Seq<Option<TierView>>>),
            decreases n - i + (if stop { 0int } else { 1int }),
        {
            let e = &self.delta.new_accounts_to_register[i];
            proof {
                let t = s.subrange(i as int, n as int);
                assert(t[0] == s[i as int]);
                assert(t.subrange(1, t.len() as int) =~= s.subrange(i + 1, n as int));
                assert(s[i as int] == (e.0@, config_opt_view(e.1)));
            }
            if key_eq(&e.0, &account_key) {
                if let Some(c) = &e.1 {
                    return Some(c.duplicate());
                }
                stop = true;
            } else {
                i = i + 1;
            }
        }
        proof {
            if !stop {
                assert(s.subrange(n as int, n as int) =~= Seq::<(Seq<u8>, Option<Seq<Option<TierView>>>)>::empty());
            }
        }
        match self.in_memory_account_flame_configs.get(&account_key) {
            Some(c) => Some(c.duplicate()),
            None => None,
        }
    }

    /// An account's permanent flame set.
    pub fn get_account_flame_set(&self, account_key: Key) -> (r: Option<AccountFlameSet>)
        ensures
            match r {
                Some(s) => self@.flame_sets.dom().contains(account_key@) && set_view(s@) == self@.flame_sets[account_key@],
                None => !self@.flame_sets.dom().contains(account_key@),
            },
    {
        match self.in_memory_flame_set.get(&account_key) {
            Some(s) => Some(set_copy(s)),
            None => None,
        }
    }

    /// Registers an account ephemerally, with an optional flame configuration.
    pub fn register_account(&mut self, account_key: Key, flame_config: Option<FMAccountFlameConfig>) -> (r: Result<(), FMRegisterAccountError>)
        ensures
            if old(self)@.configs.dom().contains(account_key@) {
                r == Err::<(), FMRegisterAccountError>(FMRegisterAccountError::AccountIsAlreadyPermanentlyRegistered(account_key))
                    && final(self)@ == old(self)@
            } else if old(self)@.delta.is_registered(account_key@) {
                r == Err::<(), FMRegisterAccountError>(FMRegisterAccountError::AccountHasJustBeenEphemerallyRegistered(account_key))
                    && final(self)@ == old(self)@
            } else {
                r is Ok && final(self)@ == (FlameManagerView {
                    delta: FMDeltaView {
                        new_accounts_to_register: old(self)@.delta.new_accounts_to_register.push(
                            (account_key@, config_opt_view(flame_config))),
                        ..old(self)@.delta
                    },
                    ..old(self)@
                })
            },
    {
        if self.is_account_registered(account_key) {
            return Err(FMRegisterAccountError::AccountIsAlreadyPermanentlyRegistered(account_key));
        }
        if !self.delta.epheremally_register_account(account_key, flame_config) {
            return Err(FMRegisterAccountError::AccountHasJustBeenEphemerallyRegistered(account_key));
        }
        Ok(())
    }

    /// Updates a registered account's flame configuration ephemerally, once per execution; returns its
    /// permanent configuration, if any.
    pub fn epheremally_update_account_flame_config(&mut self, account_key: Key, flame_config: FMAccountFlameConfig)
        -> (r: Result<Option<FMAccountFlameConfig>, FMUpdateAccountFlameConfigError>)
        ensures
            if !old(self)@.configs.dom().contains(account_key@) {
                r matches Err(FMUpdateAccountFlameConfigError::AccountIsNotRegistered(k)) && k == account_key
                    && final(self)@ == old(self)@
            } else if old(self)@.delta.updated_flame_configs.dom().contains(account_key@) {
                r matches Err(FMUpdateAccountFlameConfigError::AccountFlameConfigHasAlreadyEpheremallyUpdated(k)) && k == account_key
                    && final(self)@ == old(self)@
            } else {
                r matches Ok(prev) && config_opt_view(prev) == Some(old(self)@.configs[account_key@])
                    && final(self)@ == (FlameManagerView {
                        delta: FMDeltaView {
                            updated_flame_configs: old(self)@.delta.updated_flame_configs.insert(account_key@, flame_config@),
                            ..old(self)@.delta
                        },
                        ..old(self)@
                    })
            },
    {
        if !self.is_account_registered(account_key) {
            return Err(FMUpdateAccountFlameConfigError::AccountIsNotRegistered(account_key));
        }
        if self.delta.updated_flame_configs.contains_key(&account_key) {
            return Err(FMUpdateAccountFlameConfigError::AccountFlameConfigHasAlreadyEpheremallyUpdated(account_key));
        }
        self.delta.epheremally_update_account_flame_config(account_key, flame_config);
        let prev = match self.in_memory_account_flame_configs.get(&account_key) {
            Some(c) => Some(c.duplicate()),
            None => None,
        };
        Ok(prev)
    }

    /// Reverts the ephemeral changes of the last execution.
    pub fn rollback_last(&mut self)
        ensures
            final(self)@ == (FlameManagerView { delta: old(self)@.backup, ..old(self)@ }),
    {
        self.delta = self.backup_of_delta.duplicate();
    }

    /// Clears all ephemeral changes and their backup.
    pub fn flush_delta(&mut self)
        ensures
            final(self)@ == (FlameManagerView { delta: FMDeltaView::empty(), backup: FMDeltaView::empty(), ..old(self)@ }),
    {
        self.delta.flush();
        self.backup_of_delta.flush();
    }

    /// The order of the flame-set accounts once the new accounts are registered.
    pub closed spec fn set_keys_after_registration(&self) -> Seq<Key> {
        dedup_append(self.in_memory_flame_set.raw_keys(), new_keys(self.delta.new_accounts_to_register@))
    }

    /// The order of the accounts whose configuration is ephemerally updated.
    pub closed spec fn update_keys(&self) -> Seq<Key> {
        self.delta.updated_flame_configs.raw_keys()
    }

    /// Applies the ephemeral changes: registers new accounts, stores updated configurations, refunds
    /// each account the coin manager lists or whose flames expired (pruning expired flames and funding
    /// the gap to its target value), then projects the funded flames at the new height and stores them.
    /// Returns the projection; the writes are appended to `ops`.
    #[verifier::loop_isolation(false)]
    #[verifier::rlimit(40)]
    #[verifier::spinoff_prover]
    pub fn apply_changes(
        &mut self,
        coin_manager: &CoinManager,
        new_projector_height: u64,
        projector_expiry_height: u64,
        ops: &mut Vec<FMDiskOp>,
    ) -> (r: Result<Vec<(Key, Vec<(u32, Flame)>)>, FMApplyChangesError>)
        requires
            flame_apply_safe(
                old(self)@,
                old(self).set_keys_after_registration(),
                old(self).update_keys(),
                coin_manager@,
                affected_list(coin_manager.delta_exec()),
                projector_expiry_height,
            ),
        ensures
            flame_apply_outcome(
                old(self)@,
                old(self).set_keys_after_registration(),
                old(self).update_keys(),
                coin_manager@,
                affected_list(coin_manager.delta_exec()),
                new_projector_height,
                projector_expiry_height,
                final(self)@,
                ops_view(final(ops)@).skip(old(ops)@.len() as int),
                match r {
                    Ok(v) => Ok(v@),
                    Err(e) => Err(e),
                },
            ),
    {
        let ghost old_s = self@;
        let ghost ops0 = ops_view(ops@);
        let ghost set_keys = self.set_keys_after_registration();
        let ghost upd_keys = self.update_keys();
        let ghost cm = coin_manager@;
        let ghost expiry = projector_expiry_height;
        register_new(&mut self.in_memory_account_flame_configs, &mut self.in_memory_flame_set, &self.delta.new_accounts_to_register, ops);
        let ghost c1 = config_map_view(self.in_memory_account_flame_configs@);
        let ghost s1 = sets_view(self.in_memory_flame_set@);
        let ghost ops1 = ops_view(ops@);
        match apply_updates(&mut self.in_memory_account_flame_configs, &self.delta.updated_flame_configs, ops) {
            Err(k) => {
                proof {
                    let um = old_s.delta.updated_flame_configs;
                    let cf = config_map_view(self.in_memory_account_flame_configs@);
                    let i = choose|i: int| {
                        &&& 0 <= i < upd_keys.len()
                        &&& upd_keys[i] == k
                        &&& updates_applied(c1, upd_keys.subrange(0, i), um) == Ok::<_, Key>(cf)
                        &&& !cf.dom().contains(k@)
                        &&& ops_view(ops@) == ops1 + update_ops(upd_keys.subrange(0, i), um)
                    };
                    assert(upd_keys.subrange(0, i + 1).drop_last() =~= upd_keys.subrange(0, i));
                    assert(upd_keys.subrange(0, i + 1).last() == k);
                    super::apply::lemma_updates_err(c1, upd_keys, i + 1, um);
                    assert(ops_view(ops@).skip(ops0.len() as int) =~= registration_ops(old_s.delta.new_accounts_to_register)
                        + update_ops(upd_keys.subrange(0, i), um));
                    assert(self@ =~= (FlameManagerView { configs: cf, flame_sets: s1, ..old_s }));
                }
                return Err(FMApplyChangesError::AccountNotFoundInMemory(k));
            },
            Ok(()) => {},
        }
        let ghost c2 = config_map_view(self.in_memory_account_flame_configs@);
        let ghost m = self@;
        let ghost ops2 = ops_view(ops@);
        proof {
            assert(m == (FlameManagerView { configs: c2, flame_sets: s1, ..old_s }));
        }
        let cm_list = coin_manager.get_coingap_accounts_list();
        let accounts = coingap_list(cm_list, &self.in_memory_flame_set, projector_expiry_height);
        let ghost acc = accounts@;
        proof {
            lemma_coingap_no_duplicates(affected_list(coin_manager.delta_exec()), set_keys, s1, expiry);
            assert(flame_apply_steps(old_s, set_keys, upd_keys, cm, affected_list(coin_manager.delta_exec()), expiry)
                == (c1, s1, Ok::<_, Key>((c2, acc, m))));
        }
        let new_flames = match self.fund_accounts(coin_manager, &accounts, projector_expiry_height, ops, Ghost(m)) {
            Err(k) => {
                proof {
                    let j = choose|j: int| {
                        &&& 0 <= j < acc.len()
                        &&& acc[j] == k
                        &&& fund_all(fund_start(s1), acc.subrange(0, j), m, cm, expiry) matches Ok(stj)
                        &&& fund_step(stj, k, m, cm, expiry) is Err
                        &&& self@ == (FlameManagerView { flame_sets: stj.sets.insert(k@, pruned(stj.sets[k@], expiry)), ..m })
                        &&& ops_view(ops@) == ops2 + stj.ops + prune_ops(k@, stj.sets[k@], expiry)
                    };
                    let stj = fund_all(fund_start(s1), acc.subrange(0, j), m, cm, expiry)->Ok_0;
                    assert(ops_view(ops@).skip(ops0.len() as int) =~= registration_ops(old_s.delta.new_accounts_to_register)
                        + update_ops(upd_keys, old_s.delta.updated_flame_configs) + stj.ops + prune_ops(k@, stj.sets[k@], expiry));
                }
                return Err(FMApplyChangesError::AccountTargetFlameValueCouldNotBeRetrieved(k));
            },
            Ok(nf) => nf,
        };
        let ghost st = fund_all(fund_start(s1), acc, m, cm, expiry)->Ok_0;
        let ghost ops5 = ops_view(ops@);
        proof {
            new_flames.lemma_dom_keys();
            assert forall|i: int| 0 <= i < new_flames.raw_keys().len() implies new_flames@.dom().contains(#[trigger] new_flames.raw_keys()[i]@) by {
                assert(new_flames.key_seq()[i] == new_flames.raw_keys()[i]@);
                assert(new_flames.key_seq().contains(new_flames.raw_keys()[i]@));
            }
            lemma_total_views(new_flames@, new_flames.raw_keys());
        }
        let sorted = sort_flames(&new_flames);
        proof {
            assert(new_flames@.dom() =~= st.funds.dom());
            assert(is_projection(sorted@, st.funds));
            assert forall|i: int| 0 <= i < sorted@.len() implies st.sets.dom().contains(#[trigger] sorted@[i].0@) by {
                assert(st.funds.dom().contains(sorted@[i].0@));
            }
        }
        self.insert_projection(&sorted, new_projector_height, ops, Ghost(st.sets));
        proof {
            let pv = projection_view(sorted@);
            let fin = ops_view(ops@);
            let ops6 = fin.skip(ops5.len() as int);
            let rr = super::apply_spec::registration_ops(old_s.delta.new_accounts_to_register);
            let uu = super::apply_spec::update_ops(upd_keys, old_s.delta.updated_flame_configs);
            assert(ops5 =~= ops2 + st.ops);
            assert(fin =~= ops5 + ops6);
            assert(fin =~= ops0 + (rr + uu + st.ops + ops6));
            assert(fin.skip(ops0.len() as int) =~= rr + uu + st.ops + ops6);
            let (s6, o6) = inserted(st.sets, pv, new_projector_height);
            assert(o6 == ops6);
            assert(self@ =~= (FlameManagerView { configs: c2, flame_sets: s6, ..old_s }));
            assert(fund_all(fund_start(s1), acc, m, cm, expiry) == Ok::<FundState, Key>(st));
        }
        Ok(sorted)
    }

    /// Refunds the accounts in order: prunes each configured account's expired flames and records the
    /// flames that fund the gap to its target value; fails on the first account without a target value.
    #[verifier::loop_isolation(false)]
    #[verifier::rlimit(60)]
    #[verifier::spinoff_prover]
    fn fund_accounts(
        &mut self,
        coin_manager: &CoinManager,
        accounts: &Vec<Key>,
        expiry: u64,
        ops: &mut Vec<FMDiskOp>,
        Ghost(m): Ghost<FlameManagerView>,
    ) -> (r: Result<KeyMap<Vec<Flame>>, Key>)
        requires
            old(self)@ == m,
            key_views(accounts@).no_duplicates(),
            fund_safe(m.flame_sets, accounts@, m, coin_manager@, expiry),
        ensures
            match fund_all(fund_start(m.flame_sets), accounts@, m, coin_manager@, expiry) {
                Err(k) => r == Err::<KeyMap<Vec<Flame>>, Key>(k) && exists|j: int| {
                    &&& 0 <= j < accounts@.len()
                    &&& accounts@[j] == k
                    &&& fund_all(fund_start(m.flame_sets), accounts@.subrange(0, j), m, coin_manager@, expiry) matches Ok(stj)
                    &&& fund_step(stj, k, m, coin_manager@, expiry) is Err
                    &&& final(self)@ == (FlameManagerView { flame_sets: stj.sets.insert(k@, pruned(stj.sets[k@], expiry)), ..m })
                    &&& ops_view(final(ops)@) == ops_view(old(ops)@) + stj.ops + prune_ops(k@, stj.sets[k@], expiry)
                },
                Ok(st) => r matches Ok(nf) && st.funds == funds_view(nf@) && st.fund_keys == nf.raw_keys()
                    && final(self)@ == (FlameManagerView { flame_sets: st.sets, ..m })
                    && ops_view(final(ops)@) == ops_view(old(ops)@) + st.ops
                    && st.sets.dom() == m.flame_sets.dom()
                    && forall|k: Seq<u8>| #[trigger] st.funds.dom().contains(k) ==> m.flame_sets.dom().contains(k),
            },
    {
        let ghost s1 = m.flame_sets;
        let ghost cm = coin_manager@;
        let ghost acc = accounts@;
        let ghost ops2 = ops_view(ops@);
        let mut new_flames: KeyMap<Vec<Flame>> = KeyMap::new();
        let n = accounts.len();
        let mut j: usize = 0;
        proof {
            assert(acc.subrange(0, 0) =~= Seq::<Key>::empty());
            assert(funds_view(new_flames@) =~= Map::<Seq<u8>, Seq<FlameView>>::empty());
            assert(ops_view(ops@).skip(ops2.len() as int) =~= Seq::<FMDiskOpView>::empty());
        }
        while j < n
            invariant
                0 <= j <= n,
                n == acc.len(),
                self@.configs == m.configs,
                self@.delta == m.delta,
                self@.backup == m.backup,
                ops2.len() <= ops_view(ops@).len(),
                ops_view(ops@).subrange(0, ops2.len() as int) == ops2,
                sets_view(self.in_memory_flame_set@).dom() == s1.dom(),
                forall|t: int| j <= t < n ==> sets_view(self.in_memory_flame_set@)[#[trigger] acc[t]@] == s1[acc[t]@],
                forall|k: Seq<u8>| new_flames@.dom().contains(k) ==> s1.dom().contains(k),
                forall|k: Seq<u8>| new_flames@.dom().contains(k) ==> key_views(acc.subrange(0, j as int)).contains(k),
                fund_all(fund_start(s1), acc.subrange(0, j as int), m, cm, expiry) == Ok::<FundState, Key>(FundState {
                    sets: sets_view(self.in_memory_flame_set@),
                    funds: funds_view(new_flames@),
                    fund_keys: new_flames.raw_keys(),
                    ops: ops_view(ops@).skip(ops2.len() as int),
                }),
            decreases n - j,
        {
            let a = accounts[j];
            let ghost stj = fund_all(fund_start(s1), acc.subrange(0, j as int), m, cm, expiry)->Ok_0;
            proof {
                assert(acc.subrange(0, j + 1).drop_last() =~= acc.subrange(0, j as int));
                assert(acc.subrange(0, j + 1).last() == a);
                assert(self@.config(a@) == m.config(a@));
                lemma_key_views_prefix(acc, j as int);
            }
            let cfg = match self.get_account_flame_config(a) {
                None => {
                    proof {
                        assert(fund_step(stj, a, m, cm, expiry) == Ok::<FundState, Key>(stj));
                    }
                    j = j + 1;
                    continue;
                },
                Some(c) => c,
            };
            proof {
                assert(m.config(acc[j as int]@) is Some);
                assert(sets_view(self.in_memory_flame_set@).dom() =~= self.in_memory_flame_set@.dom());
            }
            let set = match self.in_memory_flame_set.get(&a) {
                Some(s) => s,
                None => {
                    return Err(a);
                },
            };
            let ghost pre_ops = ops_view(ops@);
            proof {
                assert(set_view(set@) == s1[a@]);
            }
            let kept = prune_set(set, a, expiry, ops);
            let current = flame_set_value(&kept);
            let ghost kv = set_view(kept@);
            self.in_memory_flame_set.insert(a, kept);
            proof {
                assert(kv == pruned(stj.sets[a@], expiry));
                assert(sets_view(self.in_memory_flame_set@) =~= stj.sets.insert(a@, kv));
                assert(ops_view(ops@).skip(ops2.len() as int) =~= stj.ops + super::apply_spec::prune_ops(a@, stj.sets[a@], expiry));
                assert(ops_view(ops@).subrange(0, ops2.len() as int) =~= ops2);
                assert(ops_view(ops@) =~= ops2 + ops_view(ops@).skip(ops2.len() as int));
            }
            let target = match coin_manager.get_account_target_flame_value_in_satoshis(a) {
                Some(t) => t,
                None => {
                    proof {
                        assert(fund_step(stj, a, m, cm, expiry) == Err::<FundState, Key>(a));
                        lemma_fund_all_err(fund_start(s1), acc, j + 1, m, cm, expiry);
                        assert(acc[j as int] == a);
                        assert(self@ =~= (FlameManagerView { flame_sets: stj.sets.insert(a@, pruned(stj.sets[a@], expiry)), ..m }));
                        let jj = j as int;
                        assert({
                            &&& 0 <= jj < acc.len()
                            &&& acc[jj] == a
                            &&& fund_all(fund_start(s1), acc.subrange(0, jj), m, cm, expiry) matches Ok(st0)
                            &&& fund_step(st0, a, m, cm, expiry) is Err
                            &&& self@ == (FlameManagerView { flame_sets: st0.sets.insert(a@, pruned(st0.sets[a@], expiry)), ..m })
                            &&& ops_view(ops@) == ops_view(old(ops)@) + st0.ops + prune_ops(a@, st0.sets[a@], expiry)
                        });
                    }
                    return Err(a);
                },
            };
            let fund = match return_flames_to_fund(&cfg, target, current) {
                Some(f) => f,
                None => Vec::new(),
            };
            let ghost fv = flame_views(fund@);
            let ghost before_funds = new_flames@;
            proof {
                lemma_no_dup_prefix(acc, j as int);
                assert(!new_flames@.dom().contains(a@));
                assert(views(fund@) == fv);
            }
            new_flames.insert(a, fund);
            proof {
                let t = target_value(cm, a@)->Some_0;
                assert(t == target);
                assert(fv == match flames_to_fund(cfg@, t as u64, set_value(kv) as u64) {
                    Some(f) => f,
                    None => Seq::<FlameView>::empty(),
                });
                assert(kv == pruned(stj.sets[a@], expiry));
                assert(sets_view(self.in_memory_flame_set@) =~= stj.sets.insert(a@, kv));
                assert(funds_view(new_flames@) =~= stj.funds.insert(a@, fv));
                assert(new_flames.raw_keys() == stj.fund_keys.push(a));
                assert(ops_view(ops@).skip(ops2.len() as int) =~= stj.ops + super::apply_spec::prune_ops(a@, stj.sets[a@], expiry));
                assert(ops_view(ops@).subrange(0, ops2.len() as int) =~= ops2);
                assert forall|t: int| j + 1 <= t < n implies sets_view(self.in_memory_flame_set@)[#[trigger] acc[t]@] == s1[acc[t]@] by {
                    assert(key_views(acc)[t] != key_views(acc)[j as int]);
                }
                assert(sets_view(self.in_memory_flame_set@).dom() =~= s1.dom());
            }
            j = j + 1;
        }
        proof {
            assert(acc.subrange(0, n as int) =~= acc);
            assert(ops_view(ops@) =~= ops2 + ops_view(ops@).skip(ops2.len() as int));
            assert(self@ =~= (FlameManagerView { flame_sets: sets_view(self.in_memory_flame_set@), ..m }));
        }
        Ok(new_flames)
    }

    /// Stores each projected account's flames at the new height and produces their writes.
    #[verifier::loop_isolation(false)]
    fn insert_projection(
        &mut self,
        sorted: &Vec<(Key, Vec<(u32, Flame)>)>,
        h: u64,
        ops: &mut Vec<FMDiskOp>,
        Ghost(sets0): Ghost<SetsView>,
    )
        requires
            sets_view(old(self).in_memory_flame_set@) == sets0,
            forall|i: int| 0 <= i < sorted@.len() ==> sets0.dom().contains(#[trigger] sorted@[i].0@),
        ensures
            ({
                let (s6, ops6) = inserted(sets0, projection_view(sorted@), h);
                &&& final(self)@ == (FlameManagerView { flame_sets: s6, ..old(self)@ })
                &&& ops_view(final(ops)@) == ops_view(old(ops)@) + ops6
            }),
    {
        let ghost pv = projection_view(sorted@);
        let ghost o0 = ops_view(ops@);
        let ghost old_s = self@;
        let n = sorted.len();
        let mut i: usize = 0;
        proof {
            assert(pv.subrange(0, 0) =~= Seq::<(Seq<u8>, Seq<(u32, FlameView)>)>::empty());
            assert(ops_view(ops@) =~= o0 + Seq::<FMDiskOpView>::empty());
        }
        while i < n
            invariant
                0 <= i <= n,
                n == sorted@.len(),
                self@ == (FlameManagerView { flame_sets: sets_view(self.in_memory_flame_set@), ..old_s }),
                sets_view(self.in_memory_flame_set@).dom() == sets0.dom(),
                ({
                    let (s6, ops6) = inserted(sets0, pv.subrange(0, i as int), h);
                    &&& sets_view(self.in_memory_flame_set@) == s6
                    &&& ops_view(ops@) == o0 + ops6
                }),
            decreases n - i,
        {
            let k = sorted[i].0;
            proof {
                assert(pv.subrange(0, i + 1).drop_last() =~= pv.subrange(0, i as int));
                assert(pv.subrange(0, i + 1).last() == pv[i as int]);
                assert(sets_view(self.in_memory_flame_set@).dom() =~= self.in_memory_flame_set@.dom());
                assert(sets0.dom().contains(sorted@[i as int].0@));
            }
            let set = match self.in_memory_flame_set.get(&k) {
                Some(s) => s,
                None => {
                    return;
                },
            };
            let ghost pre_ops = ops_view(ops@);
            let new_set = set_height_exec(set, k, h, &sorted[i].1, ops);
            let ghost before_sets = self.in_memory_flame_set@;
            let ghost nsv = set_view(new_set@);
            self.in_memory_flame_set.insert(k, new_set);
            proof {
                assert(sets_view(self.in_memory_flame_set@) =~= sets_view(before_sets).insert(k@, nsv));
                assert(sets_view(self.in_memory_flame_set@).dom() =~= sets0.dom());
                assert(self@ =~= (FlameManagerView { flame_sets: sets_view(self.in_memory_flame_set@), ..old_s }));
            }
            i = i + 1;
        }
        proof {
            assert(pv.subrange(0, n as int) =~= pv);
        }
    }
}

/// The abstract content of funded flames.
pub open spec fn funds_view(m: Map<Seq<u8>, Vec<Flame>>) -> Map<Seq<u8>, Seq<FlameView>> {
    m.map_values(|v: Vec<Flame>| views(v@))
}

/// The accounts to refund are each listed once.
pub proof fn lemma_coingap_no_duplicates(cm_list: Seq<Key>, set_keys: Seq<Key>, sets: SetsView, expiry: u64)
    requires
        key_views(cm_list).no_duplicates(),
    ensures
        key_views(coingap(cm_list, set_keys, sets, expiry)).no_duplicates(),
    decreases set_keys.len(),
{
    if set_keys.len() > 0 {
        lemma_coingap_no_duplicates(cm_list, set_keys.drop_last(), sets, expiry);
        let r = coingap(cm_list, set_keys.drop_last(), sets, expiry);
        let k = set_keys.last();
        if has_expired(sets[k@], expiry) && !key_views(r).contains(k@) {
            assert(key_views(r.push(k)) =~= key_views(r).push(k@));
            crate::keymap::lemma_push_no_duplicates(key_views(r), k@);
        }
    }
}

/// The key views of a prefix extended by one key.
pub proof fn lemma_key_views_prefix(keys: Seq<Key>, j: int)
    requires
        0 <= j < keys.len(),
    ensures
        forall|x: Seq<u8>| key_views(keys.subrange(0, j + 1)).contains(x)
            <==> key_views(keys.subrange(0, j)).contains(x) || x == keys[j]@,
{
    let p0 = key_views(keys.subrange(0, j));
    let p1 = key_views(keys.subrange(0, j + 1));
    assert(p1 =~= p0.push(keys[j]@));
    assert forall|x: Seq<u8>| p1.contains(x) <==> p0.contains(x) || x == keys[j]@ by {
        if p1.contains(x) {
            let t = choose|t: int| 0 <= t < p1.len() && p1[t] == x;
            if t < j {
                assert(p0[t] == x);
            }
        }
        if p0.contains(x) {
            let t = choose|t: int| 0 <= t < p0.len() && p0[t] == x;
            assert(p1[t] == x);
        }
        if x == keys[j]@ {
            assert(p1[j] == x);
        }
    }
}

/// A key of a list without duplicates is not among the keys before it.
pub proof fn lemma_no_dup_prefix(keys: Seq<Key>, j: int)
    requires
        0 <= j < keys.len(),
        key_views(keys).no_duplicates(),
    ensures
        !key_views(keys.subrange(0, j)).contains(keys[j]@),
{
    if key_views(keys.subrange(0, j)).contains(keys[j]@) {
        let t = choose|t: int| 0 <= t < j && key_views(keys.subrange(0, j))[t] == keys[j]@;
        assert(key_views(keys)[t] == key_views(keys)[j]);
    }
}

/// A failure of funding a prefix of the accounts is the failure of funding all of them.
pub proof fn lemma_fund_all_err(st: FundState, accounts: Seq<Key>, i: int, m: FlameManagerView, cm: crate::coin_manager::coin_manager::CoinManagerView, expiry: u64)
    requires
        0 <= i <= accounts.len(),
        fund_all(st, accounts.subrange(0, i), m, cm, expiry) is Err,
    ensures
        fund_all(st, accounts, m, cm, expiry) == fund_all(st, accounts.subrange(0, i), m, cm, expiry),
    decreases accounts.len() - i,
{
    if i < accounts.len() {
        assert(accounts.subrange(0, i + 1).drop_last() =~= accounts.subrange(0, i));
        lemma_fund_all_err(st, accounts, i + 1, m, cm, expiry);
    } else {
        assert(accounts.subrange(0, i) =~= accounts);
    }
}

/// Counting flames through their views gives the same total.
pub proof fn lemma_total_views(m: Map<Seq<u8>, Vec<Flame>>, keys: Seq<Key>)
    requires
        forall|i: int| 0 <= i < keys.len() ==> m.dom().contains(#[trigger] keys[i]@),
    ensures
        total_flames(m, keys) == total_funds(funds_view(m), keys),
    decreases keys.len(),
{
    if keys.len() > 0 {
        lemma_total_views(m, keys.drop_last());
        assert(m.dom().contains(keys[keys.len() - 1]@));
        assert(funds_view(m)[keys.last()@] == views(m[keys.last()@]@));
    }
}

/// A copy of a list of new accounts with their configurations, in the same order.
fn copy_new_accounts(v: &Vec<(Key, Option<FMAccountFlameConfig>)>) -> (r: Vec<(Key, Option<FMAccountFlameConfig>)>)
    ensures
        new_accounts_view(r@) == new_accounts_view(v@),
        new_keys(r@) == new_keys(v@),
{
    let mut r: Vec<(Key, Option<FMAccountFlameConfig>)> = Vec::new();
    let n = v.len();
    let mut i: usize = 0;
    while i < n
        invariant
            0 <= i <= n,
            n == v@.len(),
            new_accounts_view(r@) == new_accounts_view(v@).subrange(0, i as int),
            new_keys(r@) == new_keys(v@).subrange(0, i as int),
        decreases n - i,
    {
        let ghost before = r@;
        let c = config_opt_copy(&v[i].1);
        r.push((v[i].0, c));
        proof {
            assert(new_accounts_view(r@) =~= new_accounts_view(before).push((v@[i as int].0@, config_opt_view(v@[i as int].1))));
            assert(new_accounts_view(v@).subrange(0, i + 1) =~= new_accounts_view(v@).subrange(0, i as int).push((v@[i as int].0@, config_opt_view(v@[i as int].1))));
            assert(new_keys(r@) =~= new_keys(before).push(v@[i as int].0));
            assert(new_keys(v@).subrange(0, i + 1) =~= new_keys(v@).subrange(0, i as int).push(v@[i as int].0));
        }
        i = i + 1;
    }
    proof {
        assert(new_accounts_view(v@).subrange(0, n as int) =~= new_accounts_view(v@));
        assert(new_keys(v@).subrange(0, n as int) =~= new_keys(v@));
    }
    r
}

/// Whether an account's target flame value fits in 64 bits.
fn target_in_range(coin_manager: &CoinManager, a: Key) -> (r: bool)
    ensures
        r == (target_value(coin_manager@, a@) matches Some(t) ==> t <= u64::MAX),
{
    let b = match coin_manager.get_account_balance(a) {
        Some(b) => b,
        None => {
            return true;
        },
    };
    let g = match coin_manager.get_account_global_shadow_allocs_sum_in_sati_satoshis_base(a) {
        Some(g) => g,
        None => {
            return true;
        },
    };
    let q: u128 = g / 100_000_000;
    if q > u64::MAX as u128 {
        return false;
    }
    (b as u128) + q <= u64::MAX as u128
}

/// A prefix of the accounts funds no more flames than all of them.
pub proof fn lemma_total_funds_prefix_le(funds: Map<Seq<u8>, Seq<FlameView>>, keys: Seq<Key>, i: int)
    requires
        0 <= i <= keys.len(),
    ensures
        total_funds(funds, keys.subrange(0, i)) <= total_funds(funds, keys),
    decreases keys.len() - i,
{
    if i < keys.len() {
        lemma_total_funds_prefix_le(funds, keys, i + 1);
        assert(keys.subrange(0, i + 1).drop_last() =~= keys.subrange(0, i));
    } else {
        assert(keys.subrange(0, i) =~= keys);
    }
}

/// Whether the flames to fund number at most 2^32 - 1 in all.
fn total_funds_in_range(nf: &KeyMap<Vec<Flame>>) -> (r: bool)
    ensures
        r == (total_funds(funds_view(nf@), nf.raw_keys()) <= u32::MAX),
{
    let ghost keys = nf.raw_keys();
    let ghost f = funds_view(nf@);
    let n = nf.len();
    let mut total: u64 = 0;
    let mut i: usize = 0;
    proof {
        assert(keys.subrange(0, 0) =~= Seq::<Key>::empty());
    }
    while i < n
        invariant
            0 <= i <= n,
            n == keys.len(),
            keys == nf.raw_keys(),
            f == funds_view(nf@),
            total == total_funds(f, keys.subrange(0, i as int)),
            total <= u32::MAX,
        decreases n - i,
    {
        let k = nf.key_at(i);
        let len = nf.value_at(i).len();
        proof {
            assert(keys.subrange(0, i + 1).drop_last() =~= keys.subrange(0, i as int));
            assert(keys.subrange(0, i + 1).last() == k);
            assert(f[k@] == views(nf@[k@]@));
        }
        if len as u64 > u32::MAX as u64 {
            proof {
                lemma_total_funds_prefix_le(f, keys, i + 1);
            }
            return false;
        }
        total = total + len as u64;
        if total > u32::MAX as u64 {
            proof {
                lemma_total_funds_prefix_le(f, keys, i + 1);
            }
            return false;
        }
        i = i + 1;
    }
    proof {
        assert(keys.subrange(0, n as int) =~= keys);
    }
    true
}

impl FlameManager {
    /// A copy of the flame manager, with the same key orders.
    fn trial_copy(&self) -> (r: Self)
        ensures
            r@ == self@,
            r.set_keys_after_registration() == self.set_keys_after_registration(),
            r.update_keys() == self.update_keys(),
    {
        FlameManager {
            in_memory_account_flame_configs: copy_config_map(&self.in_memory_account_flame_configs),
            in_memory_flame_set: copy_set_map(&self.in_memory_flame_set),
            delta: FMDelta {
                new_accounts_to_register: copy_new_accounts(&self.delta.new_accounts_to_register),
                updated_flame_configs: copy_config_map(&self.delta.updated_flame_configs),
            },
            backup_of_delta: self.backup_of_delta.duplicate(),
        }
    }

    /// Whether funding the given accounts stays in range: each with a configuration has a flame set,
    /// a 64-bit target value and remaining flames worth at most 2^64 - 1.
    fn fund_in_range(&self, coin_manager: &CoinManager, accounts: &Vec<Key>, expiry: u64) -> (r: bool)
        ensures
            r == fund_safe(self@.flame_sets, accounts@, self@, coin_manager@, expiry),
    {
        let n = accounts.len();
        let mut i: usize = 0;
        while i < n
            invariant
                0 <= i <= n,
                n == accounts@.len(),
                forall|j: int| 0 <= j < i && #[trigger] self@.config(accounts@[j]@) is Some ==> {
                    &&& self@.flame_sets.dom().contains(accounts@[j]@)
                    &&& target_value(coin_manager@, accounts@[j]@) matches Some(t) ==> t <= u64::MAX
                    &&& set_value(pruned(self@.flame_sets[accounts@[j]@], expiry)) <= u64::MAX
                },
            decreases n - i,
        {
            let a = accounts[i];
            if self.get_account_flame_config(a).is_some() {
                match self.in_memory_flame_set.get(&a) {
                    None => {
                        proof {
                            assert(self@.config(accounts@[i as int]@) is Some);
                        }
                        return false;
                    },
                    Some(set) => {
                        proof {
                            assert(self@.flame_sets[a@] == set_view(set@));
                        }
                        if !target_in_range(coin_manager, a) {
                            proof {
                                assert(self@.config(accounts@[i as int]@) is Some);
                            }
                            return false;
                        }
                        let mut scratch: Vec<FMDiskOp> = Vec::new();
                        let kept = prune_set(set, a, expiry, &mut scratch);
                        if !set_value_in_range(&kept) {
                            proof {
                                assert(self@.config(accounts@[i as int]@) is Some);
                            }
                            return false;
                        }
                    },
                }
            }
            i = i + 1;
        }
        true
    }

    /// Whether applying the changes stays in range (what `apply_changes` requires), found by making
    /// the applying steps on a copy.
    #[verifier::loop_isolation(false)]
    #[verifier::rlimit(40)]
    #[verifier::spinoff_prover]
    pub fn changes_in_range(&self, coin_manager: &CoinManager, projector_expiry_height: u64) -> (r: bool)
        ensures
            r == flame_apply_safe(
                self@,
                self.set_keys_after_registration(),
                self.update_keys(),
                coin_manager@,
                affected_list(coin_manager.delta_exec()),
                projector_expiry_height,
            ),
    {
        let ghost old_s = self@;
        let ghost set_keys = self.set_keys_after_registration();
        let ghost upd_keys = self.update_keys();
        let ghost cm = coin_manager@;
        let ghost expiry = projector_expiry_height;
        let mut trial = self.trial_copy();
        let mut scratch: Vec<FMDiskOp> = Vec::new();
        register_new(&mut trial.in_memory_account_flame_configs, &mut trial.in_memory_flame_set, &trial.delta.new_accounts_to_register, &mut scratch);
        let ghost c1 = config_map_view(trial.in_memory_account_flame_configs@);
        let ghost s1 = sets_view(trial.in_memory_flame_set@);
        match apply_updates(&mut trial.in_memory_account_flame_configs, &trial.delta.updated_flame_configs, &mut scratch) {
            Err(k) => {
                return true;
            },
            Ok(()) => {},
        }
        let ghost c2 = config_map_view(trial.in_memory_account_flame_configs@);
        let ghost m = trial@;
        proof {
            assert(m == (FlameManagerView { configs: c2, flame_sets: s1, ..old_s }));
        }
        let cm_list = coin_manager.get_coingap_accounts_list();
        let accounts = coingap_list(cm_list, &trial.in_memory_flame_set, projector_expiry_height);
        proof {
            lemma_coingap_no_duplicates(affected_list(coin_manager.delta_exec()), set_keys, s1, expiry);
            assert(flame_apply_steps(old_s, set_keys, upd_keys, cm, affected_list(coin_manager.delta_exec()), expiry)
                == (c1, s1, Ok::<_, Key>((c2, accounts@, m))));
        }
        if !trial.fund_in_range(coin_manager, &accounts, projector_expiry_height) {
            return false;
        }
        match trial.fund_accounts(coin_manager, &accounts, projector_expiry_height, &mut scratch, Ghost(m)) {
            Err(_) => true,
            Ok(nf) => total_funds_in_range(&nf),
        }
    }

    /// Applies the ephemeral changes, as `apply_changes` does, when applying them stays in range;
    /// otherwise returns `None` and changes nothing.
    pub fn apply_changes_checked(
        &mut self,
        coin_manager: &CoinManager,
        new_projector_height: u64,
        projector_expiry_height: u64,
        ops: &mut Vec<FMDiskOp>,
    ) -> (r: Option<Result<Vec<(Key, Vec<(u32, Flame)>)>, FMApplyChangesError>>)
        ensures
            r is None <==> !flame_apply_safe(
                old(self)@,
                old(self).set_keys_after_registration(),
                old(self).update_keys(),
                coin_manager@,
                affected_list(coin_manager.delta_exec()),
                projector_expiry_height,
            ),
            r is None ==> final(self)@ == old(self)@ && final(ops)@ == old(ops)@,
            r matches Some(res) ==> flame_apply_outcome(
                old(self)@,
                old(self).set_keys_after_registration(),
                old(self).update_keys(),
                coin_manager@,
                affected_list(coin_manager.delta_exec()),
                new_projector_height,
                projector_expiry_height,
                final(self)@,
                ops_view(final(ops)@).skip(old(ops)@.len() as int),
                match res {
                    Ok(v) => Ok(v@),
                    Err(e) => Err(e),
                },
            ),
    {
        if !self.changes_in_range(coin_manager, projector_expiry_height) {
            return None;
        }
        Some(self.apply_changes(coin_manager, new_projector_height, projector_expiry_height, ops))
    }
}

} // verus!
