use super::shadow_space::{ShadowSpace, ShadowSpaceView};
use crate::keymap::{key_views, keys_contain, copy_keys, lemma_push_contains, lemma_push_no_duplicates, Key, KeyMap};
use vstd::prelude::*;

verus! {

/// The abstract content of a coin manager delta.
#[verifier::ext_equal]
pub struct CMDeltaView {
    pub new_accounts_to_register: Map<Seq<u8>, u64>,
    pub updated_account_balances: Map<Seq<u8>, u64>,
    pub updated_shadow_allocs_sums: Map<Seq<u8>, u128>,
    pub new_contracts_to_register: Map<Seq<u8>, u64>,
    pub allocs_list: Map<Seq<u8>, Seq<Seq<u8>>>,
    pub deallocs_list: Map<Seq<u8>, Seq<Seq<u8>>>,
    pub updated_contract_balances: Map<Seq<u8>, u64>,
    pub updated_shadow_spaces: Map<Seq<u8>, ShadowSpaceView>,
}

impl CMDeltaView {
    /// The delta that holds no change.
    pub open spec fn empty() -> Self {
        CMDeltaView {
            new_accounts_to_register: Map::empty(),
            updated_account_balances: Map::empty(),
            updated_shadow_allocs_sums: Map::empty(),
            new_contracts_to_register: Map::empty(),
            allocs_list: Map::empty(),
            deallocs_list: Map::empty(),
            updated_contract_balances: Map::empty(),
            updated_shadow_spaces: Map::empty(),
        }
    }

    /// The list of a contract's ephemeral allocations (or deallocations) with one more account.
    pub open spec fn appended(list: Map<Seq<u8>, Seq<Seq<u8>>>, contract_id: Seq<u8>, account_key: Seq<u8>) -> Map<Seq<u8>, Seq<Seq<u8>>> {
        list.insert(
            contract_id,
            if list.dom().contains(contract_id) {
                list[contract_id].push(account_key)
            } else {
                seq![account_key]
            },
        )
    }
}

/// Ephemeral state differences of the coin manager, to be applied later.
pub struct CMDelta {
    /// New accounts to register, with their initial balances.
    pub new_accounts_to_register: KeyMap<u64>,
    /// Updated account balances.
    pub updated_account_balances: KeyMap<u64>,
    /// Updated global shadow allocs sums of accounts.
    pub updated_shadow_allocs_sums: KeyMap<u128>,
    /// New contracts to register, with their initial balances.
    pub new_contracts_to_register: KeyMap<u64>,
    /// Accounts newly allocated in each contract's shadow space.
    pub allocs_list: KeyMap<Vec<Key>>,
    /// Accounts deallocated from each contract's shadow space.
    pub deallocs_list: KeyMap<Vec<Key>>,
    /// Updated contract balances.
    pub updated_contract_balances: KeyMap<u64>,
    /// Updated shadow spaces.
    pub updated_shadow_spaces: KeyMap<ShadowSpace>,
}

/// The views of a map of key lists.
pub open spec fn list_map_view(m: Map<Seq<u8>, Vec<Key>>) -> Map<Seq<u8>, Seq<Seq<u8>>> {
    m.map_values(|v: Vec<Key>| key_views(v@))
}

/// The views of a map of shadow spaces.
pub open spec fn space_map_view(m: Map<Seq<u8>, ShadowSpace>) -> Map<Seq<u8>, ShadowSpaceView> {
    m.map_values(|v: ShadowSpace| v@)
}

/// Keys appended one by one, skipping those already present.
pub open spec fn dedup_append(init: Seq<Key>, keys: Seq<Key>) -> Seq<Key>
    decreases keys.len(),
{
    if keys.len() == 0 {
        init
    } else {
        let r = dedup_append(init, keys.drop_last());
        if key_views(r).contains(keys.last()@) {
            r
        } else {
            r.push(keys.last())
        }
    }
}

/// The accounts whose balance or global shadow allocs sum is changed: those with a changed balance
/// in their order, then those with a changed sum, each once.
pub open spec fn affected_list(d: CMDelta) -> Seq<Key> {
    dedup_append(
        dedup_append(Seq::empty(), d.updated_account_balances.raw_keys()),
        d.updated_shadow_allocs_sums.raw_keys(),
    )
}

impl View for CMDelta {
    type V = CMDeltaView;

    open spec fn view(&self) -> CMDeltaView {
        CMDeltaView {
            new_accounts_to_register: self.new_accounts_to_register@,
            updated_account_balances: self.updated_account_balances@,
            updated_shadow_allocs_sums: self.updated_shadow_allocs_sums@,
            new_contracts_to_register: self.new_contracts_to_register@,
            allocs_list: list_map_view(self.allocs_list@),
            deallocs_list: list_map_view(self.deallocs_list@),
            updated_contract_balances: self.updated_contract_balances@,
            updated_shadow_spaces: space_map_view(self.updated_shadow_spaces@),
        }
    }
}

/// A copy of a map of key lists, in the same order.
fn copy_list_map(m: &KeyMap<Vec<Key>>) -> (r: KeyMap<Vec<Key>>)
    ensures
        list_map_view(r@) == list_map_view(m@),
        r.raw_keys() == m.raw_keys(),
{
    let n = m.len();
    let mut r: KeyMap<Vec<Key>> = KeyMap::new();
    let mut i: usize = 0;
    while i < n
        invariant
            0 <= i <= n,
            n == m.key_seq().len(),
            m.key_seq().no_duplicates(),
            forall|k: Seq<u8>| m@.dom().contains(k) <==> m.key_seq().contains(k),
            r.raw_keys() == m.raw_keys().subrange(0, i as int),
            forall|k: Seq<u8>| r@.dom().contains(k) <==> m.key_seq().subrange(0, i as int).contains(k),
            forall|k: Seq<u8>| #[trigger] r@.dom().contains(k) ==> key_views(r@[k]@) == key_views(m@[k]@),
        decreases n - i,
    {
        let k = m.key_at(i);
        let v = copy_keys(m.value_at(i));
        proof {
            if m.key_seq().subrange(0, i as int).contains(k@) {
                let j = choose|j: int| 0 <= j < i && m.key_seq().subrange(0, i as int)[j] == k@;
                assert(m.key_seq()[j] == m.key_seq()[i as int]);
            }
        }
        r.insert(k, v);
        proof {
            assert(m.key_seq().subrange(0, i + 1) =~= m.key_seq().subrange(0, i as int).push(k@));
            assert(m.raw_keys().subrange(0, i + 1) =~= m.raw_keys().subrange(0, i as int).push(k));
            crate::keymap::lemma_push_contains(m.key_seq().subrange(0, i as int), k@);
        }
        i = i + 1;
    }
    assert(m.key_seq().subrange(0, n as int) =~= m.key_seq());
    assert(m.raw_keys().subrange(0, n as int) =~= m.raw_keys());
    assert(list_map_view(r@) =~= list_map_view(m@));
    r
}

/// A copy of a map of shadow spaces, in the same order.
pub fn copy_space_map(m: &KeyMap<ShadowSpace>) -> (r: KeyMap<ShadowSpace>)
    ensures
        space_map_view(r@) == space_map_view(m@),
        r.raw_keys() == m.raw_keys(),
{
    let n = m.len();
    let mut r: KeyMap<ShadowSpace> = KeyMap::new();
    let mut i: usize = 0;
    while i < n
        invariant
            0 <= i <= n,
            n == m.key_seq().len(),
            m.key_seq().no_duplicates(),
            forall|k: Seq<u8>| m@.dom().contains(k) <==> m.key_seq().contains(k),
            r.raw_keys() == m.raw_keys().subrange(0, i as int),
            forall|k: Seq<u8>| r@.dom().contains(k) <==> m.key_seq().subrange(0, i as int).contains(k),
            forall|k: Seq<u8>| #[trigger] r@.dom().contains(k) ==> r@[k]@ == m@[k]@,
        decreases n - i,
    {
        let k = m.key_at(i);
        let v = m.value_at(i).duplicate();
        proof {
            if m.key_seq().subrange(0, i as int).contains(k@) {
                let j = choose|j: int| 0 <= j < i && m.key_seq().subrange(0, i as int)[j] == k@;
                assert(m.key_seq()[j] == m.key_seq()[i as int]);
            }
        }
        r.insert(k, v);
        proof {
            assert(m.key_seq().subrange(0, i + 1) =~= m.key_seq().subrange(0, i as int).push(k@));
            assert(m.raw_keys().subrange(0, i + 1) =~= m.raw_keys().subrange(0, i as int).push(k));
            crate::keymap::lemma_push_contains(m.key_seq().subrange(0, i as int), k@);
        }
        i = i + 1;
    }
    assert(m.key_seq().subrange(0, n as int) =~= m.key_seq());
    assert(m.raw_keys().subrange(0, n as int) =~= m.raw_keys());
    assert(space_map_view(r@) =~= space_map_view(m@));
    r
}

/// Appends an account to a contract's list, creating the list if needed.
fn append_to_list(m: &mut KeyMap<Vec<Key>>, contract_id: Key, account_key: Key)
    ensures
        list_map_view(final(m)@) == CMDeltaView::appended(list_map_view(old(m)@), contract_id@, account_key@),
{
    let mut list: Vec<Key> = Vec::new();
    if m.swap_value(&contract_id, &mut list) {
        let ghost before = list@;
        list.push(account_key);
        let mut placeholder: Vec<Key> = Vec::new();
        let ghost m1 = m@;
        m.swap_value(&contract_id, &mut list);
        assert(key_views(before.push(account_key)) =~= key_views(before).push(account_key@));
        assert(list_map_view(m@) =~= CMDeltaView::appended(list_map_view(old(m)@), contract_id@, account_key@));
    } else {
        list.push(account_key);
        m.insert(contract_id, list);
        assert(key_views(seq![account_key]) =~= seq![account_key@]);
        assert(list_map_view(m@) =~= CMDeltaView::appended(list_map_view(old(m)@), contract_id@, account_key@));
    }
}

impl CMDelta {
    /// Constructs an empty delta.
    pub fn fresh_new() -> (r: Self)
        ensures
            r@ == CMDeltaView::empty(),
    {
        let r = CMDelta {
            new_accounts_to_register: KeyMap::new(),
            updated_account_balances: KeyMap::new(),
            updated_shadow_allocs_sums: KeyMap::new(),
            new_contracts_to_register: KeyMap::new(),
            allocs_list: KeyMap::new(),
            deallocs_list: KeyMap::new(),
            updated_contract_balances: KeyMap::new(),
            updated_shadow_spaces: KeyMap::new(),
        };
        assert(r@ =~= CMDeltaView::empty());
        r
    }

    /// Clears all values.
    pub fn flush(&mut self)
        ensures
            final(self)@ == CMDeltaView::empty(),
    {
        self.new_accounts_to_register.clear();
        self.updated_account_balances.clear();
        self.updated_shadow_allocs_sums.clear();
        self.new_contracts_to_register.clear();
        self.allocs_list.clear();
        self.deallocs_list.clear();
        self.updated_contract_balances.clear();
        self.updated_shadow_spaces.clear();
        assert(self@ =~= CMDeltaView::empty());
    }

    /// A copy of the delta.
    pub fn duplicate(&self) -> (r: Self)
        ensures
            r@ == self@,
            r.updated_shadow_spaces.raw_keys() == self.updated_shadow_spaces.raw_keys(),
    {
        CMDelta {
            new_accounts_to_register: self.new_accounts_to_register.copy(),
            updated_account_balances: self.updated_account_balances.copy(),
            updated_shadow_allocs_sums: self.updated_shadow_allocs_sums.copy(),
            new_contracts_to_register: self.new_contracts_to_register.copy(),
            allocs_list: copy_list_map(&self.allocs_list),
            deallocs_list: copy_list_map(&self.deallocs_list),
            updated_contract_balances: self.updated_contract_balances.copy(),
            updated_shadow_spaces: copy_space_map(&self.updated_shadow_spaces),
        }
    }

    /// Ephemerally updates an account's balance.
    pub fn epheremally_update_account_balance(&mut self, account_key: Key, balance: u64)
        ensures
            final(self)@ == (CMDeltaView {
                updated_account_balances: old(self)@.updated_account_balances.insert(account_key@, balance),
                ..old(self)@
            }),
            final(self).updated_shadow_spaces.raw_keys() == old(self).updated_shadow_spaces.raw_keys(),
    {
        self.updated_account_balances.insert(account_key, balance);
    }

    /// Ephemerally updates an account's global shadow allocs sum.
    pub fn epheremally_update_account_shadow_allocs_sum(&mut self, account_key: Key, shadow_allocs_sum: u128)
        ensures
            final(self)@ == (CMDeltaView {
                updated_shadow_allocs_sums: old(self)@.updated_shadow_allocs_sums.insert(account_key@, shadow_allocs_sum),
                ..old(self)@
            }),
            final(self).updated_shadow_spaces.raw_keys() == old(self).updated_shadow_spaces.raw_keys(),
    {
        self.updated_shadow_allocs_sums.insert(account_key, shadow_allocs_sum);
    }

    /// Ephemerally updates a contract's balance.
    pub fn epheremally_update_contract_balance(&mut self, contract_id: Key, balance: u64)
        ensures
            final(self)@ == (CMDeltaView {
                updated_contract_balances: old(self)@.updated_contract_balances.insert(contract_id@, balance),
                ..old(self)@
            }),
            final(self).updated_shadow_spaces.raw_keys() == old(self).updated_shadow_spaces.raw_keys(),
    {
        self.updated_contract_balances.insert(contract_id, balance);
    }

    /// Ephemerally records an allocation of an account in a contract's shadow space.
    pub fn epheremally_insert_alloc(&mut self, contract_id: Key, account_key: Key)
        ensures
            final(self)@ == (CMDeltaView {
                allocs_list: CMDeltaView::appended(old(self)@.allocs_list, contract_id@, account_key@),
                ..old(self)@
            }),
            final(self).updated_shadow_spaces.raw_keys() == old(self).updated_shadow_spaces.raw_keys(),
    {
        append_to_list(&mut self.allocs_list, contract_id, account_key);
    }

    /// Ephemerally records a deallocation of an account from a contract's shadow space.
    pub fn epheremally_insert_dealloc(&mut self, contract_id: Key, account_key: Key)
        ensures
            final(self)@ == (CMDeltaView {
                deallocs_list: CMDeltaView::appended(old(self)@.deallocs_list, contract_id@, account_key@),
                ..old(self)@
            }),
            final(self).updated_shadow_spaces.raw_keys() == old(self).updated_shadow_spaces.raw_keys(),
    {
        append_to_list(&mut self.deallocs_list, contract_id, account_key);
    }

    /// The accounts whose balance or global shadow allocs sum is changed, each listed once.
    pub fn affected_accounts_list(&self) -> (r: Vec<Key>)
        ensures
            r@ == affected_list(*self),
            key_views(r@).no_duplicates(),
            key_views(r@).to_set() == self@.updated_account_balances.dom().union(
                self@.updated_shadow_allocs_sums.dom(),
            ),
    {
        let mut out: Vec<Key> = Vec::new();
        let n = self.updated_account_balances.len();
        let mut i: usize = 0;
        while i < n
            invariant
                0 <= i <= n,
                n == self.updated_account_balances.key_seq().len(),
                forall|k: Seq<u8>| self@.updated_account_balances.dom().contains(k)
                    <==> self.updated_account_balances.key_seq().contains(k),
                key_views(out@).no_duplicates(),
                key_views(out@).to_set() == self.updated_account_balances.key_seq().subrange(0, i as int).to_set(),
                out@ == dedup_append(Seq::empty(), self.updated_account_balances.raw_keys().subrange(0, i as int)),
            decreases n - i,
        {
            let k = self.updated_account_balances.key_at(i);
            proof {
                let ks = self.updated_account_balances.raw_keys();
                assert(ks.subrange(0, i + 1).drop_last() =~= ks.subrange(0, i as int));
                assert(ks.subrange(0, i + 1).last() == k);
            }
            let ghost before = out@;
            if !keys_contain(&out, &k) {
                out.push(k);
                assert(key_views(out@) =~= key_views(before).push(k@));
                proof { lemma_push_no_duplicates(key_views(before), k@); }
            } else {
                assert(key_views(out@).to_set().contains(k@));
                assert(key_views(out@).to_set().insert(k@) =~= key_views(out@).to_set());
            }
            assert(self.updated_account_balances.key_seq().subrange(0, i + 1)
                =~= self.updated_account_balances.key_seq().subrange(0, i as int).push(k@));
            proof { lemma_push_contains(self.updated_account_balances.key_seq().subrange(0, i as int), k@); }
            assert(key_views(out@).to_set() =~= self.updated_account_balances.key_seq().subrange(0, i + 1).to_set());
            i = i + 1;
        }
        assert(self.updated_account_balances.key_seq().subrange(0, n as int) =~= self.updated_account_balances.key_seq());
        assert(self.updated_account_balances.key_seq().to_set() =~= self@.updated_account_balances.dom());
        assert(key_views(out@).to_set() =~= self@.updated_account_balances.dom());
        assert(self.updated_account_balances.raw_keys().subrange(0, n as int) =~= self.updated_account_balances.raw_keys());
        let m = self.updated_shadow_allocs_sums.len();
        let mut j: usize = 0;
        while j < m
            invariant
                0 <= j <= m,
                m == self.updated_shadow_allocs_sums.key_seq().len(),
                forall|k: Seq<u8>| self@.updated_shadow_allocs_sums.dom().contains(k)
                    <==> self.updated_shadow_allocs_sums.key_seq().contains(k),
                key_views(out@).no_duplicates(),
                key_views(out@).to_set() == self@.updated_account_balances.dom().union(
                    self.updated_shadow_allocs_sums.key_seq().subrange(0, j as int).to_set()),
                out@ == dedup_append(dedup_append(Seq::empty(), self.updated_account_balances.raw_keys()),
                    self.updated_shadow_allocs_sums.raw_keys().subrange(0, j as int)),
            decreases m - j,
        {
            let k = self.updated_shadow_allocs_sums.key_at(j);
            proof {
                let ks = self.updated_shadow_allocs_sums.raw_keys();
                assert(ks.subrange(0, j + 1).drop_last() =~= ks.subrange(0, j as int));
                assert(ks.subrange(0, j + 1).last() == k);
            }
            let ghost before = out@;
            if !keys_contain(&out, &k) {
                out.push(k);
                assert(key_views(out@) =~= key_views(before).push(k@));
                proof { lemma_push_no_duplicates(key_views(before), k@); }
            } else {
                assert(key_views(out@).to_set().contains(k@));
                assert(key_views(out@).to_set().insert(k@) =~= key_views(out@).to_set());
            }
            assert(self.updated_shadow_allocs_sums.key_seq().subrange(0, j + 1)
                =~= self.updated_shadow_allocs_sums.key_seq().subrange(0, j as int).push(k@));
            proof { lemma_push_contains(self.updated_shadow_allocs_sums.key_seq().subrange(0, j as int), k@); }
            assert(key_views(out@).to_set() =~= self@.updated_account_balances.dom().union(
                self.updated_shadow_allocs_sums.key_seq().subrange(0, j + 1).to_set()));
            j = j + 1;
        }
        assert(self.updated_shadow_allocs_sums.key_seq().subrange(0, m as int) =~= self.updated_shadow_allocs_sums.key_seq());
        assert(self.updated_shadow_allocs_sums.key_seq().to_set() =~= self@.updated_shadow_allocs_sums.dom());
        assert(self.updated_shadow_allocs_sums.raw_keys().subrange(0, m as int) =~= self.updated_shadow_allocs_sums.raw_keys());
        out
    }
}

} // verus!
