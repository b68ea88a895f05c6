use super::flame_config::{FMAccountFlameConfig, TierView};
use crate::keymap::{key_eq, Key, KeyMap};
use vstd::prelude::*;

verus! {

/// The abstract content of an optional flame configuration.
pub open spec fn config_opt_view(o: Option<FMAccountFlameConfig>) -> Option<Seq<Option<TierView>>> {
    match o {
        Some(c) => Some(c@),
        None => None,
    }
}

/// The abstract content of the ephemeral changes of a flame manager.
#[verifier::ext_equal]
pub struct FMDeltaView {
    /// New accounts to register, in order, each with its optional flame configuration.
    pub new_accounts_to_register: Seq<(Seq<u8>, Option<Seq<Option<TierView>>>)>,
    /// Updated flame configurations.
    pub updated_flame_configs: Map<Seq<u8>, Seq<Option<TierView>>>,
}

/// Ephemeral changes of a flame manager, to be applied later.
pub struct FMDelta {
    /// New accounts to register, each with its optional flame configuration.
    pub new_accounts_to_register: Vec<(Key, Option<FMAccountFlameConfig>)>,
    /// Updated flame configurations of accounts.
    pub updated_flame_configs: KeyMap<FMAccountFlameConfig>,
}

/// The abstract content of new account registrations.
pub open spec fn new_accounts_view(s: Seq<(Key, Option<FMAccountFlameConfig>)>) -> Seq<(Seq<u8>, Option<Seq<Option<TierView>>>)> {
    s.map_values(|e: (Key, Option<FMAccountFlameConfig>)| (e.0@, config_opt_view(e.1)))
}

/// The abstract content of a map of flame configurations.
pub open spec fn config_map_view(m: Map<Seq<u8>, FMAccountFlameConfig>) -> Map<Seq<u8>, Seq<Option<TierView>>> {
    m.map_values(|c: FMAccountFlameConfig| c@)
}

impl View for FMDelta {
    type V = FMDeltaView;

    open spec fn view(&self) -> FMDeltaView {
        FMDeltaView {
            new_accounts_to_register: new_accounts_view(self.new_accounts_to_register@),
            updated_flame_configs: config_map_view(self.updated_flame_configs@),
        }
    }
}

impl FMDeltaView {
    /// No ephemeral change.
    pub open spec fn empty() -> Self {
        FMDeltaView { new_accounts_to_register: Seq::empty(), updated_flame_configs: Map::empty() }
    }

    /// Whether an account is among the new accounts to register.
    pub open spec fn is_registered(self, k: Seq<u8>) -> bool {
        exists|i: int| 0 <= i < self.new_accounts_to_register.len() && (#[trigger] self.new_accounts_to_register[i]).0 == k
    }
}

/// A copy of an optional flame configuration.
pub fn config_opt_copy(o: &Option<FMAccountFlameConfig>) -> (r: Option<FMAccountFlameConfig>)
    ensures
        config_opt_view(r) == config_opt_view(*o),
{
    match o {
        Some(c) => Some(c.duplicate()),
        None => None,
    }
}

impl FMDelta {
    /// No ephemeral change.
    pub fn fresh_new() -> (r: Self)
        ensures
            r@ == FMDeltaView::empty(),
    {
        let r = FMDelta { new_accounts_to_register: Vec::new(), updated_flame_configs: KeyMap::new() };
        assert(r@ =~= FMDeltaView::empty());
        r
    }

    /// Clears all ephemeral changes.
    pub fn flush(&mut self)
        ensures
            final(self)@ == FMDeltaView::empty(),
    {
        self.new_accounts_to_register.clear();
        self.updated_flame_configs.clear();
        assert(self@ =~= FMDeltaView::empty());
    }

    /// A copy of the ephemeral changes.
    pub fn duplicate(&self) -> (r: Self)
        ensures
            r@ == self@,
    {
        let mut v: Vec<(Key, Option<FMAccountFlameConfig>)> = Vec::new();
        let n = self.new_accounts_to_register.len();
        let mut i: usize = 0;
        while i < n
            invariant
                0 <= i <= n,
                n == self.new_accounts_to_register@.len(),
                new_accounts_view(v@) == new_accounts_view(self.new_accounts_to_register@).subrange(0, i as int),
            decreases n - i,
        {
            let e = &self.new_accounts_to_register[i];
            let c = config_opt_copy(&e.1);
            let ghost before = new_accounts_view(v@);
            v.push((e.0, c));
            proof {
                assert(new_accounts_view(v@) =~= before.push((e.0@, config_opt_view(e.1))));
                assert(new_accounts_view(self.new_accounts_to_register@).subrange(0, i + 1)
                    =~= new_accounts_view(self.new_accounts_to_register@).subrange(0, i as int).push((e.0@, config_opt_view(e.1))));
            }
            i = i + 1;
        }
        let mut m: KeyMap<FMAccountFlameConfig> = KeyMap::new();
        let k = self.updated_flame_configs.len();
        let mut j: usize = 0;
        while j < k
            invariant
                0 <= j <= k,
                k == self.updated_flame_configs.key_seq().len(),
                self.updated_flame_configs.key_seq().no_duplicates(),
                forall|x: Seq<u8>| self.updated_flame_configs@.dom().contains(x) <==> self.updated_flame_configs.key_seq().contains(x),
                forall|x: Seq<u8>| m@.dom().contains(x) <==> self.updated_flame_configs.key_seq().subrange(0, j as int).contains(x),
                forall|x: Seq<u8>| #[trigger] m@.dom().contains(x) ==> m@[x]@ == self.updated_flame_configs@[x]@,
            decreases k - j,
        {
            let key = self.updated_flame_configs.key_at(j);
            let c = self.updated_flame_configs.value_at(j).duplicate();
            m.insert(key, c);
            proof {
                let ks = self.updated_flame_configs.key_seq();
                let p0 = ks.subrange(0, j as int);
                let p1 = ks.subrange(0, j + 1);
                assert forall|x: Seq<u8>| m@.dom().contains(x) <==> p1.contains(x) by {
                    if p1.contains(x) {
                        let t = choose|t: int| 0 <= t < p1.len() && p1[t] == x;
                        if t < j {
                            assert(p0[t] == x);
                        }
                    }
                    if p0.contains(x) {
                        let t = choose|t: int| 0 <= t < p0.len() && p0[t] == x;
                        assert(p1[t] == x);
                    }
                    if x == key@ {
                        assert(p1[j as int] == x);
                    }
                }
            }
            j = j + 1;
        }
        proof {
            let ks = self.updated_flame_configs.key_seq();
            assert(ks.subrange(0, k as int) =~= ks);
            assert(config_map_view(m@) =~= config_map_view(self.updated_flame_configs@));
            assert(new_accounts_view(self.new_accounts_to_register@).subrange(0, n as int) =~= new_accounts_view(self.new_accounts_to_register@));
        }
        FMDelta { new_accounts_to_register: v, updated_flame_configs: m }
    }

    /// Whether an account has just been registered ephemerally.
    pub fn is_account_epheremally_registered(&self, account_key: Key) -> (r: bool)
        ensures
            r == self@.is_registered(account_key@),
    {
        let n = self.new_accounts_to_register.len();
        let mut i: usize = 0;
        while i < n
            invariant
                0 <= i <= n,
                n == self.new_accounts_to_register@.len(),
                forall|j: int| 0 <= j < i ==> (#[trigger] self.new_accounts_to_register@[j]).0@ != account_key@,
            decreases n - i,
        {
            if key_eq(&self.new_accounts_to_register[i].0, &account_key) {
                proof {
                    assert(self@.new_accounts_to_register[i as int].0 == account_key@);
                }
                return true;
            }
            i = i + 1;
        }
        proof {
            assert forall|j: int| 0 <= j < self@.new_accounts_to_register.len() implies (#[trigger] self@.new_accounts_to_register[j]).0 != account_key@ by {
                assert(self@.new_accounts_to_register[j].0 == self.new_accounts_to_register@[j].0@);
            }
        }
        false
    }

    /// Registers an account ephemerally, unless it has just been registered; returns whether it was.
    pub fn epheremally_register_account(&mut self, account_key: Key, flame_config: Option<FMAccountFlameConfig>) -> (r: bool)
        ensures
            r == !old(self)@.is_registered(account_key@),
            r ==> final(self)@ == (FMDeltaView {
                new_accounts_to_register: old(self)@.new_accounts_to_register.push((account_key@, config_opt_view(flame_config))),
                ..old(self)@
            }),
            !r ==> final(self)@ == old(self)@,
    {
        if self.is_account_epheremally_registered(account_key) {
            return false;
        }
        let ghost before = self@;
        self.new_accounts_to_register.push((account_key, flame_config));
        proof {
            assert(self@.new_accounts_to_register =~= before.new_accounts_to_register.push((account_key@, config_opt_view(flame_config))));
        }
        true
    }

    /// Updates an account's flame configuration ephemerally.
    pub fn epheremally_update_account_flame_config(&mut self, account_key: Key, flame_config: FMAccountFlameConfig)
        ensures
            final(self)@ == (FMDeltaView {
                updated_flame_configs: old(self)@.updated_flame_configs.insert(account_key@, flame_config@),
                ..old(self)@
            }),
    {
        let ghost fv = flame_config@;
        self.updated_flame_configs.insert(account_key, flame_config);
        proof {
            assert(self@.updated_flame_configs =~= old(self)@.updated_flame_configs.insert(account_key@, fv));
        }
    }
}

/// An account registered ephemerally stays registered until the changes are flushed: registering
/// it (whether the call records it or finds it already there) leaves it registered, and registering
/// any account or updating any configuration keeps it so.
pub proof fn law_ephemeral_registration_stays(
    d: FMDeltaView,
    k: Seq<u8>,
    k2: Seq<u8>,
    c: Option<Seq<Option<TierView>>>,
    cfg: Seq<Option<TierView>>,
)
    ensures
        (FMDeltaView { new_accounts_to_register: d.new_accounts_to_register.push((k, c)), ..d }).is_registered(k),
        d.is_registered(k) ==> (FMDeltaView { new_accounts_to_register: d.new_accounts_to_register.push((k2, c)), ..d }).is_registered(k),
        d.is_registered(k) ==> (FMDeltaView { updated_flame_configs: d.updated_flame_configs.insert(k2, cfg), ..d }).is_registered(k),
{
    let d1 = FMDeltaView { new_accounts_to_register: d.new_accounts_to_register.push((k, c)), ..d };
    assert(d1.new_accounts_to_register[d.new_accounts_to_register.len() as int].0 == k);
    if d.is_registered(k) {
        let i = choose|i: int| 0 <= i < d.new_accounts_to_register.len() && (#[trigger] d.new_accounts_to_register[i]).0 == k;
        let d2 = FMDeltaView { new_accounts_to_register: d.new_accounts_to_register.push((k2, c)), ..d };
        assert(d2.new_accounts_to_register[i] == d.new_accounts_to_register[i]);
        let d3 = FMDeltaView { updated_flame_configs: d.updated_flame_configs.insert(k2, cfg), ..d };
        assert(d3.new_accounts_to_register[i] == d.new_accounts_to_register[i]);
    }
}

/// One ephemeral change to a flame manager's delta, short of flushing it: registering an account
/// with an optional configuration, or updating an account's configuration.
pub enum FMDeltaStep {
    Register(Seq<u8>, Option<Seq<Option<TierView>>>),
    UpdateConfig(Seq<u8>, Seq<Option<TierView>>),
}

impl FMDeltaView {
    /// The delta after one change, as the delta's calls make it: a registration of an account that is
    /// already registered changes nothing.
    pub open spec fn step(self, s: FMDeltaStep) -> Self {
        match s {
            FMDeltaStep::Register(k, c) => if self.is_registered(k) {
                self
            } else {
                FMDeltaView { new_accounts_to_register: self.new_accounts_to_register.push((k, c)), ..self }
            },
            FMDeltaStep::UpdateConfig(k, cfg) => FMDeltaView {
                updated_flame_configs: self.updated_flame_configs.insert(k, cfg),
                ..self
            },
        }
    }

    /// The delta after a sequence of changes, in order.
    pub open spec fn steps(self, ss: Seq<FMDeltaStep>) -> Self
        decreases ss.len(),
    {
        if ss.len() == 0 {
            self
        } else {
            self.steps(ss.drop_last()).step(ss.last())
        }
    }
}

/// Once an account is registered ephemerally (whatever the registering call returned), it stays
/// registered through any sequence of further registrations and configuration updates, until the
/// changes are flushed.
pub proof fn law_registration_stays_over_steps(
    d: FMDeltaView,
    k: Seq<u8>,
    c: Option<Seq<Option<TierView>>>,
    ss: Seq<FMDeltaStep>,
)
    ensures
        d.step(FMDeltaStep::Register(k, c)).steps(ss).is_registered(k),
    decreases ss.len(),
{
    let d1 = d.step(FMDeltaStep::Register(k, c));
    if ss.len() == 0 {
        if !d.is_registered(k) {
            law_ephemeral_registration_stays(d, k, k, c, Seq::empty());
        }
    } else {
        law_registration_stays_over_steps(d, k, c, ss.drop_last());
        let prev = d1.steps(ss.drop_last());
        match ss.last() {
            FMDeltaStep::Register(k2, c2) => {
                law_ephemeral_registration_stays(prev, k, k2, c2, Seq::empty());
            },
            FMDeltaStep::UpdateConfig(k2, cfg) => {
                law_ephemeral_registration_stays(prev, k, k2, None, cfg);
            },
        }
    }
}

} // verus!
