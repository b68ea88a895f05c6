use super::account_body::CMAccountBody;
use super::apply_spec::{
    accounts_with_new, apply_changes_outcome, balance_step, balances_stored, contract_balance_step, contract_balances_stored, contracts_with_new, global_sum_step, global_sums_stored, register_account_step, register_contract_step, registered_accounts, registered_contracts, space_step, spaces_stored, dealloc_step, deallocs_stored, spread_space, spread_spaces, spread_of, globals_of, delta_spread, apply_changes_safe, CMDiskOp,
};
use super::contract_body::CMContractBodyView;
use super::delta::{CMDelta, CMDeltaView};
use super::coin_manager::{deferred_sum, CoinManagerView};
use super::errors::CMApplyChangesError;
use super::global_read::{deferred_total, lemma_exec_shares, lemma_total_is};
use super::shadow_space::{abs_i64, base_allocs_sum, deferred_applies, deferred_share, ShadowSpace, ShadowSpaceView};
use crate::keymap::{key_views, Key};
use crate::fold::{lemma_step_fold_ok, step_fold};
use vstd::prelude::*;

verus! {

/// The key views of a non-empty sequence are those of all but its last key, and its last key.
pub proof fn lemma_key_views_last(keys: Seq<Key>)
    requires
        keys.len() > 0,
    ensures
        forall|k: Seq<u8>| key_views(keys).contains(k) <==> key_views(keys.drop_last()).contains(k) || k == keys.last()@,
{
    let ks = keys.drop_last();
    let k0 = keys.last();
    assert forall|k: Seq<u8>| key_views(keys).contains(k) <==> key_views(ks).contains(k) || k == k0@ by {
        if key_views(keys).contains(k) && k != k0@ {
            let j = choose|j: int| 0 <= j < key_views(keys).len() && key_views(keys)[j] == k;
            assert(key_views(ks)[j] == k);
        }
        if k == k0@ {
            assert(key_views(keys)[keys.len() - 1] == k);
        }
        if key_views(ks).contains(k) {
            let j = choose|j: int| 0 <= j < key_views(ks).len() && key_views(ks)[j] == k;
            assert(key_views(keys)[j] == k);
        }
    }
}

/// Registering new accounts adds each of them with its balance and a zero allocs sum.
pub proof fn lemma_registered_accounts(a: Map<Seq<u8>, CMAccountBody>, keys: Seq<Key>, m: Map<Seq<u8>, u64>)
    ensures
        step_fold(a, keys, register_account_step(m)) is Ok,
        forall|k: Seq<u8>| #[trigger] registered_accounts(a, keys, m).dom().contains(k)
            <==> a.dom().contains(k) || key_views(keys).contains(k),
        forall|k: Seq<u8>| key_views(keys).contains(k) ==> #[trigger] registered_accounts(a, keys, m)[k]
            == (CMAccountBody { balance: m[k], global_shadow_allocs_sum: 0 }),
        forall|k: Seq<u8>| !key_views(keys).contains(k) && a.dom().contains(k) ==> #[trigger] registered_accounts(a, keys, m)[k] == a[k],
    decreases keys.len(),
{
    if keys.len() > 0 {
        let ks = keys.drop_last();
        let k0 = keys.last();
        lemma_registered_accounts(a, ks, m);
        assert(key_views(keys) =~= key_views(ks).push(k0@));
        let prev = registered_accounts(a, ks, m);
        let r = registered_accounts(a, keys, m);
        assert(r == prev.insert(k0@, CMAccountBody { balance: m[k0@], global_shadow_allocs_sum: 0 }));
        lemma_key_views_last(keys);
    } else {
        assert(key_views(keys) =~= Seq::<Seq<u8>>::empty());
    }
}

/// Registering new contracts adds each of them.
pub proof fn lemma_registered_contracts(c: Map<Seq<u8>, CMContractBodyView>, keys: Seq<Key>, m: Map<Seq<u8>, u64>)
    ensures
        step_fold(c, keys, register_contract_step(m)) is Ok,
        forall|k: Seq<u8>| #[trigger] registered_contracts(c, keys, m).dom().contains(k)
            <==> c.dom().contains(k) || key_views(keys).contains(k),
        forall|k: Seq<u8>| !key_views(keys).contains(k) && c.dom().contains(k) ==> #[trigger] registered_contracts(c, keys, m)[k] == c[k],
    decreases keys.len(),
{
    if keys.len() > 0 {
        let ks = keys.drop_last();
        let k0 = keys.last();
        lemma_registered_contracts(c, ks, m);
        lemma_key_views_last(keys);
        let prev = registered_contracts(c, ks, m);
        assert(registered_contracts(c, keys, m) == prev.insert(k0@, CMContractBodyView {
            balance: m[k0@],
            shadow_space: super::shadow_space::ShadowSpaceView { allocs_sum: 0, allocs: Map::empty(), deferred: 0 },
        }));
    } else {
        assert(key_views(keys) =~= Seq::<Seq<u8>>::empty());
    }
}

/// Storing balances succeeds only on registered accounts, writes each balance and nothing else.
pub proof fn lemma_balances_stored(a: Map<Seq<u8>, CMAccountBody>, keys: Seq<Key>, m: Map<Seq<u8>, u64>)
    requires
        balances_stored(a, keys, m) is Ok,
    ensures
        balances_stored(a, keys, m)->Ok_0.dom() == a.dom(),
        forall|k: Seq<u8>| key_views(keys).contains(k) ==> a.dom().contains(k),
        forall|k: Seq<u8>| #[trigger] balances_stored(a, keys, m)->Ok_0.dom().contains(k) ==>
            balances_stored(a, keys, m)->Ok_0[k] == (if key_views(keys).contains(k) {
                CMAccountBody { balance: m[k], ..a[k] }
            } else {
                a[k]
            }),
    decreases keys.len(),
{
    if keys.len() > 0 {
        let ks = keys.drop_last();
        let k0 = keys.last();
        lemma_key_views_last(keys);
        let prev = step_fold(a, ks, balance_step(m));
        if prev is Ok {
            lemma_balances_stored(a, ks, m);
        }
        assert(prev is Ok);
        let pm = prev->Ok_0;
        assert(pm.dom().contains(k0@));
        let r = step_fold(a, keys, balance_step(m))->Ok_0;
        assert(r == pm.insert(k0@, CMAccountBody { balance: m[k0@], ..pm[k0@] }));
        assert(r.dom() =~= a.dom());
    } else {
        assert(key_views(keys) =~= Seq::<Seq<u8>>::empty());
    }
}

/// Storing global shadow allocs sums succeeds only on registered accounts, writes each sum and
/// nothing else.
pub proof fn lemma_global_sums_stored(a: Map<Seq<u8>, CMAccountBody>, keys: Seq<Key>, m: Map<Seq<u8>, u128>)
    requires
        global_sums_stored(a, keys, m) is Ok,
    ensures
        global_sums_stored(a, keys, m)->Ok_0.dom() == a.dom(),
        forall|k: Seq<u8>| key_views(keys).contains(k) ==> a.dom().contains(k),
        forall|k: Seq<u8>| #[trigger] global_sums_stored(a, keys, m)->Ok_0.dom().contains(k) ==>
            global_sums_stored(a, keys, m)->Ok_0[k] == (if key_views(keys).contains(k) {
                CMAccountBody { global_shadow_allocs_sum: m[k], ..a[k] }
            } else {
                a[k]
            }),
    decreases keys.len(),
{
    if keys.len() > 0 {
        let ks = keys.drop_last();
        let k0 = keys.last();
        lemma_key_views_last(keys);
        let prev = step_fold(a, ks, global_sum_step(m));
        if prev is Ok {
            lemma_global_sums_stored(a, ks, m);
        }
        assert(prev is Ok);
        let pm = prev->Ok_0;
        assert(pm.dom().contains(k0@));
        let r = step_fold(a, keys, global_sum_step(m))->Ok_0;
        assert(r == pm.insert(k0@, CMAccountBody { global_shadow_allocs_sum: m[k0@], ..pm[k0@] }));
        assert(r.dom() =~= a.dom());
    } else {
        assert(key_views(keys) =~= Seq::<Seq<u8>>::empty());
    }
}

/// Storing contract balances succeeds only on registered contracts, writes each balance and nothing
/// else.
pub proof fn lemma_contract_balances_stored(c: Map<Seq<u8>, CMContractBodyView>, keys: Seq<Key>, m: Map<Seq<u8>, u64>)
    requires
        contract_balances_stored(c, keys, m) is Ok,
    ensures
        contract_balances_stored(c, keys, m)->Ok_0.dom() == c.dom(),
        forall|k: Seq<u8>| key_views(keys).contains(k) ==> c.dom().contains(k),
        forall|k: Seq<u8>| #[trigger] contract_balances_stored(c, keys, m)->Ok_0.dom().contains(k) ==>
            contract_balances_stored(c, keys, m)->Ok_0[k] == (if key_views(keys).contains(k) {
                CMContractBodyView { balance: m[k], ..c[k] }
            } else {
                c[k]
            }),
    decreases keys.len(),
{
    if keys.len() > 0 {
        let ks = keys.drop_last();
        let k0 = keys.last();
        lemma_key_views_last(keys);
        let prev = step_fold(c, ks, contract_balance_step(m));
        if prev is Ok {
            lemma_contract_balances_stored(c, ks, m);
        }
        assert(prev is Ok);
        let pm = prev->Ok_0;
        assert(pm.dom().contains(k0@));
        let r = step_fold(c, keys, contract_balance_step(m))->Ok_0;
        assert(r == pm.insert(k0@, CMContractBodyView { balance: m[k0@], ..pm[k0@] }));
        assert(r.dom() =~= c.dom());
    } else {
        assert(key_views(keys) =~= Seq::<Seq<u8>>::empty());
    }
}

/// Storing shadow spaces succeeds only on registered contracts, writes each space and nothing else.
pub proof fn lemma_spaces_stored(c: Map<Seq<u8>, CMContractBodyView>, keys: Seq<Key>, spaces: Map<Seq<u8>, ShadowSpace>)
    requires
        spaces_stored(c, keys, spaces) is Ok,
    ensures
        spaces_stored(c, keys, spaces)->Ok_0.dom() == c.dom(),
        forall|k: Seq<u8>| key_views(keys).contains(k) ==> c.dom().contains(k),
        forall|k: Seq<u8>| #[trigger] spaces_stored(c, keys, spaces)->Ok_0.dom().contains(k) ==>
            spaces_stored(c, keys, spaces)->Ok_0[k] == (if key_views(keys).contains(k) {
                CMContractBodyView { shadow_space: spaces[k]@, ..c[k] }
            } else {
                c[k]
            }),
    decreases keys.len(),
{
    if keys.len() > 0 {
        let ks = keys.drop_last();
        let k0 = keys.last();
        lemma_key_views_last(keys);
        let prev = step_fold(c, ks, space_step(spaces));
        if prev is Ok {
            lemma_spaces_stored(c, ks, spaces);
        }
        assert(prev is Ok);
        let pm = prev->Ok_0;
        assert(pm.dom().contains(k0@));
        let r = step_fold(c, keys, space_step(spaces))->Ok_0;
        assert(r == pm.insert(k0@, CMContractBodyView { shadow_space: spaces[k0@]@, ..pm[k0@] }));
        assert(r.dom() =~= c.dom());
    } else {
        assert(key_views(keys) =~= Seq::<Seq<u8>>::empty());
    }
}

/// Removing accounts from allocations leaves none of them there, and no allocation that was not
/// there before.
pub proof fn lemma_accounts_removed(m: Map<Seq<u8>, u128>, s: Seq<Key>)
    ensures
        forall|a: Seq<u8>| #[trigger] key_views(s).contains(a) ==> !super::apply_spec::accounts_removed(m, s).dom().contains(a),
        super::apply_spec::accounts_removed(m, s).dom().subset_of(m.dom()),
        forall|a: Seq<u8>| #[trigger] m.dom().contains(a) && !key_views(s).contains(a) ==> {
            let r = super::apply_spec::accounts_removed(m, s);
            r.dom().contains(a) && r[a] == m[a]
        },
    decreases s.len(),
{
    if s.len() > 0 {
        lemma_accounts_removed(m, s.drop_last());
        lemma_key_views_last(s);
    }
}

/// Removing deallocated accounts keeps every contract, its balance and allocs sum, and leaves the
/// contracts without deallocations as they were.
pub proof fn lemma_deallocs_stored(c: Map<Seq<u8>, CMContractBodyView>, keys: Seq<Key>, lists: Map<Seq<u8>, Vec<Key>>)
    requires
        deallocs_stored(c, keys, lists) is Ok,
    ensures
        deallocs_stored(c, keys, lists)->Ok_0.dom() == c.dom(),
        forall|k: Seq<u8>| #[trigger] deallocs_stored(c, keys, lists)->Ok_0.dom().contains(k) ==> {
            let b = deallocs_stored(c, keys, lists)->Ok_0[k];
            &&& b.balance == c[k].balance
            &&& b.shadow_space.allocs_sum == c[k].shadow_space.allocs_sum
            &&& !key_views(keys).contains(k) ==> b == c[k]
        },
        forall|k: Seq<u8>| #[trigger] key_views(keys).contains(k) ==> {
            let r = deallocs_stored(c, keys, lists)->Ok_0;
            &&& r.dom().contains(k)
            &&& forall|a: Seq<u8>| #[trigger] key_views(lists[k]@).contains(a) ==> !r[k].shadow_space.allocs.dom().contains(a)
        },
        forall|k: Seq<u8>, a: Seq<u8>| c.dom().contains(k) && #[trigger] c[k].shadow_space.allocs.dom().contains(a)
            && !(key_views(keys).contains(k) && key_views(lists[k]@).contains(a)) ==> {
            let r = deallocs_stored(c, keys, lists)->Ok_0;
            &&& r[k].shadow_space.allocs.dom().contains(a)
            &&& r[k].shadow_space.allocs[a] == c[k].shadow_space.allocs[a]
        },
    decreases keys.len(),
{
    if keys.len() > 0 {
        let ks = keys.drop_last();
        let k0 = keys.last();
        lemma_key_views_last(keys);
        let prev = step_fold(c, ks, dealloc_step(lists));
        if prev is Ok {
            lemma_deallocs_stored(c, ks, lists);
        }
        assert(prev is Ok);
        let pm = prev->Ok_0;
        assert(pm.dom().contains(k0@));
        let allocs = super::apply_spec::accounts_removed(pm[k0@].shadow_space.allocs, lists[k0@]@);
        lemma_accounts_removed(pm[k0@].shadow_space.allocs, lists[k0@]@);
        let r = step_fold(c, keys, dealloc_step(lists))->Ok_0;
        assert(r == pm.insert(k0@, CMContractBodyView {
            shadow_space: super::shadow_space::ShadowSpaceView { allocs, ..pm[k0@].shadow_space },
            ..pm[k0@]
        }));
        assert(r.dom() =~= c.dom());
        assert forall|k: Seq<u8>, a: Seq<u8>| c.dom().contains(k) && #[trigger] c[k].shadow_space.allocs.dom().contains(a)
            && !(key_views(keys).contains(k) && key_views(lists[k]@).contains(a)) implies
            r[k].shadow_space.allocs.dom().contains(a) && r[k].shadow_space.allocs[a] == c[k].shadow_space.allocs[a] by {
            assert(!(key_views(ks).contains(k) && key_views(lists[k]@).contains(a)));
            assert(pm[k].shadow_space.allocs.dom().contains(a));
            if k == k0@ {
                assert(pm[k0@].shadow_space.allocs.dom().contains(a));
                assert(!key_views(lists[k0@]@).contains(a));
            }
        }
    } else {
        assert(key_views(keys) =~= Seq::<Seq<u8>>::empty());
    }
}

/// After changes are applied successfully, the permanent state holds what the ephemeral changes
/// held: every new account and contract is registered, a new account starts with its initial
/// balance unless that balance was changed too, every changed account balance, global shadow allocs
/// sum (with deferred changes spread) and contract balance is the ephemeral one, every changed
/// shadow space without deallocations is the ephemeral one with its deferred change spread, and no
/// deallocated account keeps an allocation in its contract's shadow space.
pub proof fn law_apply_changes_persists(
    old_accounts: Map<Seq<u8>, CMAccountBody>,
    old_contracts: Map<Seq<u8>, CMContractBodyView>,
    d: CMDelta,
    new_accounts: Map<Seq<u8>, CMAccountBody>,
    new_contracts: Map<Seq<u8>, CMContractBodyView>,
    d5: CMDelta,
    produced: Seq<CMDiskOp>,
)
    requires
        apply_changes_outcome(old_accounts, old_contracts, d, new_accounts, new_contracts, d5, produced, Ok(())),
    ensures
        forall|k: Seq<u8>| #[trigger] d@.new_accounts_to_register.dom().contains(k) ==> new_accounts.dom().contains(k),
        forall|k: Seq<u8>| #[trigger] d@.new_accounts_to_register.dom().contains(k)
            && !d@.updated_account_balances.dom().contains(k) ==> new_accounts[k].balance == d@.new_accounts_to_register[k],
        forall|c: Seq<u8>| #[trigger] d@.new_contracts_to_register.dom().contains(c) ==> new_contracts.dom().contains(c),
        forall|k: Seq<u8>| #[trigger] d@.updated_account_balances.dom().contains(k)
            ==> new_accounts.dom().contains(k) && new_accounts[k].balance == d@.updated_account_balances[k],
        forall|k: Seq<u8>| #[trigger] d5@.updated_shadow_allocs_sums.dom().contains(k)
            ==> new_accounts.dom().contains(k) && new_accounts[k].global_shadow_allocs_sum == d5@.updated_shadow_allocs_sums[k],
        forall|c: Seq<u8>| #[trigger] d@.updated_contract_balances.dom().contains(c)
            ==> new_contracts.dom().contains(c) && new_contracts[c].balance == d@.updated_contract_balances[c],
        forall|c: Seq<u8>| #[trigger] d5@.updated_shadow_spaces.dom().contains(c) && !d5@.deallocs_list.dom().contains(c)
            ==> new_contracts.dom().contains(c) && new_contracts[c].shadow_space == d5@.updated_shadow_spaces[c],
        forall|c: Seq<u8>, a: Seq<u8>| #[trigger] d5@.deallocs_list.dom().contains(c) && #[trigger] d5@.deallocs_list[c].contains(a)
            ==> new_contracts.dom().contains(c) && !new_contracts[c].shadow_space.allocs.dom().contains(a),
{
    let a1 = accounts_with_new(old_accounts, d);
    let c2 = contracts_with_new(old_contracts, d);
    lemma_registered_accounts(old_accounts, d.new_accounts_to_register.raw_keys(), d.new_accounts_to_register@);
    lemma_registered_contracts(old_contracts, d.new_contracts_to_register.raw_keys(), d.new_contracts_to_register@);
    d.new_accounts_to_register.lemma_dom_keys();
    d.new_contracts_to_register.lemma_dom_keys();
    d.updated_account_balances.lemma_dom_keys();
    d.updated_contract_balances.lemma_dom_keys();
    d5.updated_shadow_allocs_sums.lemma_dom_keys();
    d5.updated_shadow_spaces.lemma_dom_keys();
    d5.deallocs_list.lemma_dom_keys();
    let bkeys = d.updated_account_balances.raw_keys();
    let ckeys = d.updated_contract_balances.raw_keys();
    let gkeys = d5.updated_shadow_allocs_sums.raw_keys();
    let skeys = d5.updated_shadow_spaces.raw_keys();
    let dkeys = d5.deallocs_list.raw_keys();
    lemma_balances_stored(a1, bkeys, d.updated_account_balances@);
    let a3 = balances_stored(a1, bkeys, d.updated_account_balances@)->Ok_0;
    lemma_contract_balances_stored(c2, ckeys, d.updated_contract_balances@);
    let c4 = contract_balances_stored(c2, ckeys, d.updated_contract_balances@)->Ok_0;
    lemma_global_sums_stored(a3, gkeys, d5.updated_shadow_allocs_sums@);
    lemma_spaces_stored(c4, skeys, d5.updated_shadow_spaces@);
    let c7 = spaces_stored(c4, skeys, d5.updated_shadow_spaces@)->Ok_0;
    lemma_deallocs_stored(c7, dkeys, d5.deallocs_list@);
    let a6 = new_accounts;
    assert forall|k: Seq<u8>| #[trigger] d@.new_accounts_to_register.dom().contains(k) implies new_accounts.dom().contains(k)
        && (!d@.updated_account_balances.dom().contains(k) ==> new_accounts[k].balance == d@.new_accounts_to_register[k]) by {
        assert(d.new_accounts_to_register.key_seq().contains(k));
        assert(a1.dom().contains(k));
        assert(a1[k].balance == d.new_accounts_to_register@[k]);
        if !d@.updated_account_balances.dom().contains(k) {
            assert(d.updated_account_balances@.dom().contains(k) <==> d.updated_account_balances.key_seq().contains(k));
            assert(!key_views(bkeys).contains(k));
            assert(a3[k] == a1[k]);
        }
    }
    assert forall|c: Seq<u8>| #[trigger] d@.new_contracts_to_register.dom().contains(c) implies new_contracts.dom().contains(c) by {
        assert(d.new_contracts_to_register.key_seq().contains(c));
        assert(c2.dom().contains(c));
    }
    assert forall|k: Seq<u8>| #[trigger] d@.updated_account_balances.dom().contains(k) implies
        new_accounts.dom().contains(k) && new_accounts[k].balance == d@.updated_account_balances[k] by {
        assert(d.updated_account_balances@.dom().contains(k) <==> d.updated_account_balances.key_seq().contains(k));
        assert(key_views(bkeys).contains(k));
        assert(a1.dom().contains(k));
        assert(a3[k].balance == d.updated_account_balances@[k]);
    }
    assert forall|k: Seq<u8>| #[trigger] d5@.updated_shadow_allocs_sums.dom().contains(k) implies
        new_accounts.dom().contains(k) && new_accounts[k].global_shadow_allocs_sum == d5@.updated_shadow_allocs_sums[k] by {
        assert(d5.updated_shadow_allocs_sums@.dom().contains(k) <==> d5.updated_shadow_allocs_sums.key_seq().contains(k));
        assert(key_views(gkeys).contains(k));
        assert(a3.dom().contains(k));
    }
    assert forall|c: Seq<u8>| #[trigger] d@.updated_contract_balances.dom().contains(c) implies
        new_contracts.dom().contains(c) && new_contracts[c].balance == d@.updated_contract_balances[c] by {
        assert(d.updated_contract_balances@.dom().contains(c) <==> d.updated_contract_balances.key_seq().contains(c));
        assert(key_views(ckeys).contains(c));
        assert(c2.dom().contains(c));
        assert(c4[c].balance == d.updated_contract_balances@[c]);
        assert(c7[c].balance == c4[c].balance);
    }
    assert(d5.deallocs_list@.dom() == d5@.deallocs_list.dom());
    assert forall|c: Seq<u8>| #[trigger] d5@.updated_shadow_spaces.dom().contains(c) && !d5@.deallocs_list.dom().contains(c) implies
        new_contracts.dom().contains(c) && new_contracts[c].shadow_space == d5@.updated_shadow_spaces[c] by {
        assert(d5.updated_shadow_spaces@.dom().contains(c) <==> d5.updated_shadow_spaces.key_seq().contains(c));
        assert(d5.deallocs_list@.dom().contains(c) <==> d5.deallocs_list.key_seq().contains(c));
        assert(key_views(skeys).contains(c));
        assert(!key_views(dkeys).contains(c));
        assert(c4.dom().contains(c));
        assert(c7[c].shadow_space == d5.updated_shadow_spaces@[c]@);
    }
    assert(d5.updated_shadow_spaces@.dom() == d5@.updated_shadow_spaces.dom());
    assert forall|c: Seq<u8>, a: Seq<u8>| #[trigger] d5@.deallocs_list.dom().contains(c) && #[trigger] d5@.deallocs_list[c].contains(a)
        implies new_contracts.dom().contains(c) && !new_contracts[c].shadow_space.allocs.dom().contains(a) by {
        assert(d5.deallocs_list@.dom().contains(c) <==> d5.deallocs_list.key_seq().contains(c));
        assert(key_views(dkeys).contains(c));
        assert(d5@.deallocs_list[c] == key_views(d5.deallocs_list@[c]@));
        assert(key_views(d5.deallocs_list@[c]@).contains(a));
    }
}

/// Ephemeral operations never touch the permanent state nor the backup of the ephemeral changes.
pub proof fn law_ephemeral_operations_keep_permanent(s: CoinManagerView, k: Key, c: Key, amount: u64)
    ensures
        s.register_account(k, amount) matches Ok(t) ==> t.accounts == s.accounts && t.contracts == s.contracts && t.backup == s.backup,
        s.register_contract(c, amount) matches Ok(t) ==> t.accounts == s.accounts && t.contracts == s.contracts && t.backup == s.backup,
        s.account_balance_up(k, amount) matches Ok(t) ==> t.accounts == s.accounts && t.contracts == s.contracts && t.backup == s.backup,
        s.account_balance_down(k, amount) matches Ok(t) ==> t.accounts == s.accounts && t.contracts == s.contracts && t.backup == s.backup,
        s.contract_balance_up(c, amount) matches Ok(t) ==> t.accounts == s.accounts && t.contracts == s.contracts && t.backup == s.backup,
        s.contract_balance_down(c, amount) matches Ok(t) ==> t.accounts == s.accounts && t.contracts == s.contracts && t.backup == s.backup,
        s.shadow_alloc_account(c, k) matches Ok(t) ==> t.accounts == s.accounts && t.contracts == s.contracts && t.backup == s.backup,
        s.shadow_dealloc_account(c, k) matches Ok(t) ==> t.accounts == s.accounts && t.contracts == s.contracts && t.backup == s.backup,
        ({
            let t = s.shadow_up(c, k, amount).0;
            t.accounts == s.accounts && t.contracts == s.contracts && t.backup == s.backup
        }),
        ({
            let t = s.shadow_down(c, k, amount).0;
            t.accounts == s.accounts && t.contracts == s.contracts && t.backup == s.backup
        }),
        ({
            let t = s.shadow_up_all(c, amount).0;
            t.accounts == s.accounts && t.contracts == s.contracts && t.backup == s.backup
        }),
        ({
            let t = s.shadow_down_all(c, amount).0;
            t.accounts == s.accounts && t.contracts == s.contracts && t.backup == s.backup
        }),
{
}

/// Raising an account's balance and then lowering it by the same amount gives back the balance it
/// had.
pub proof fn law_account_balance_up_down(s: CoinManagerView, k: Key, amount: u64)
    requires
        s.account_balance(k@) matches Some(b) ==> b + amount <= u64::MAX,
    ensures
        s.account_balance_up(k, amount) matches Ok(t) ==> (t.account_balance_down(k, amount) matches Ok(u)
            && u.account_balance(k@) == s.account_balance(k@)),
{
}

/// Raising a contract's balance and then lowering it by the same amount gives back the balance it had.
pub proof fn law_contract_balance_up_down(s: CoinManagerView, c: Key, amount: u64)
    requires
        s.contract_balance(c@) matches Some(b) ==> b + amount <= u64::MAX,
        s.contract_balance(c@) matches Some(b) ==> (s.space(c@) matches Some(sp) && sp.allocs_sum <= b),
    ensures
        s.contract_balance_up(c, amount) matches Ok(t) ==> (t.contract_balance_down(c, amount) matches Ok(u)
            && u.contract_balance(c@) == s.contract_balance(c@)),
{
}

/// A contract's shadow allocs sum does not exceed its balance.
pub open spec fn allocs_within_balance(s: CoinManagerView, c: Seq<u8>) -> bool {
    s.space(c) matches Some(sp) ==> (s.contract_balance(c) matches Some(b) && sp.allocs_sum <= b)
}

/// Every operation keeps each contract's shadow allocs sum within its balance.
pub proof fn law_allocs_within_balance(s: CoinManagerView, k: Key, c: Key, c2: Seq<u8>, amount: u64)
    requires
        allocs_within_balance(s, c2),
        s.contract_balance(c@) matches Some(b) ==> b + amount <= u64::MAX,
        s.space(c@) matches Some(sp) ==> sp.allocs_sum + amount <= u64::MAX,
    ensures
        s.contract_balance_up(c, amount) matches Ok(t) ==> allocs_within_balance(t, c2),
        s.contract_balance_down(c, amount) matches Ok(t) ==> allocs_within_balance(t, c2),
        s.shadow_alloc_account(c, k) matches Ok(t) ==> allocs_within_balance(t, c2),
        s.shadow_dealloc_account(c, k) matches Ok(t) ==> allocs_within_balance(t, c2),
        allocs_within_balance(s.shadow_up(c, k, amount).0, c2),
        allocs_within_balance(s.shadow_down(c, k, amount).0, c2),
        allocs_within_balance(s.shadow_up_all(c, amount).0, c2),
        allocs_within_balance(s.shadow_down_all(c, amount).0, c2),
{
}

/// Rolling back after the ephemeral operations of an execution gives back the ephemeral changes as
/// they were when the execution began.
pub proof fn law_rollback_restores(s0: CoinManagerView, s2: CoinManagerView)
    requires
        s2.backup == (CoinManagerView { backup: s0.delta, ..s0 }).backup,
    ensures
        (CoinManagerView { delta: s2.backup, ..s2 }).delta == s0.delta,
{
}

/// Registering an account is ephemeral until the changes are applied: it leaves the account
/// unregistered permanently; applying the changes of a consistent coin manager, in range and with
/// every account reached by the spread registered, succeeds and registers the account with its
/// initial balance.
pub proof fn law_register_then_apply(
    s: CoinManagerView,
    k: Key,
    b: u64,
    d: CMDelta,
    new_accounts: Map<Seq<u8>, CMAccountBody>,
    new_contracts: Map<Seq<u8>, CMContractBodyView>,
    d5: CMDelta,
    produced: Seq<CMDiskOp>,
    r: Result<(), CMApplyChangesError>,
)
    requires
        s.consistent(),
        s.register_account(k, b) is Ok,
        d@ == s.register_account(k, b)->Ok_0.delta,
        apply_changes_safe(s.accounts, d),
        spread_accounts_registered(s.accounts, d),
        apply_changes_outcome(s.accounts, s.contracts, d, new_accounts, new_contracts, d5, produced, r),
    ensures
        !s.register_account(k, b)->Ok_0.accounts.dom().contains(k@),
        r is Ok,
        new_accounts.dom().contains(k@),
        new_accounts[k@].balance == b,
{
    let t = s.register_account(k, b)->Ok_0;
    law_operations_keep_consistent(s, k, k, b);
    law_apply_succeeds(t, d, new_accounts, new_contracts, d5, produced, r);
    assert(r == Ok::<(), CMApplyChangesError>(()));
    law_apply_changes_persists(s.accounts, s.contracts, d, new_accounts, new_contracts, d5, produced);
    assert(d@.new_accounts_to_register.dom().contains(k@));
    assert(!s.accounts.dom().contains(k@));
    assert(!d@.updated_account_balances.dom().contains(k@));
}

/// Applying the changes successfully makes permanent the balances that were read before: every
/// account and contract balance that read as some value before reads as that value from the
/// permanent state afterwards. This holds of a consistent coin manager whose changes stay in range
/// and whose spread reaches only registered accounts; applying its changes succeeds.
pub proof fn law_apply_keeps_balance_reads(
    s: CoinManagerView,
    d: CMDelta,
    new_accounts: Map<Seq<u8>, CMAccountBody>,
    new_contracts: Map<Seq<u8>, CMContractBodyView>,
    d5: CMDelta,
    produced: Seq<CMDiskOp>,
    r: Result<(), CMApplyChangesError>,
)
    requires
        d@ == s.delta,
        s.consistent(),
        apply_changes_safe(s.accounts, d),
        spread_accounts_registered(s.accounts, d),
        apply_changes_outcome(s.accounts, s.contracts, d, new_accounts, new_contracts, d5, produced, r),
    ensures
        r is Ok,
        forall|k: Seq<u8>| #[trigger] s.account_balance(k) is Some ==> new_accounts.dom().contains(k) && new_accounts[k].balance == s.account_balance(k)->Some_0,
        forall|c: Seq<u8>| #[trigger] s.contract_balance(c) is Some ==> new_contracts.dom().contains(c) && new_contracts[c].balance == s.contract_balance(c)->Some_0,
{
    law_apply_succeeds(s, d, new_accounts, new_contracts, d5, produced, r);
    assert(r == Ok::<(), CMApplyChangesError>(()));
    law_apply_changes_persists(s.accounts, s.contracts, d, new_accounts, new_contracts, d5, produced);
    let a1 = accounts_with_new(s.accounts, d);
    let c2 = contracts_with_new(s.contracts, d);
    lemma_registered_accounts(s.accounts, d.new_accounts_to_register.raw_keys(), d.new_accounts_to_register@);
    lemma_registered_contracts(s.contracts, d.new_contracts_to_register.raw_keys(), d.new_contracts_to_register@);
    d.new_accounts_to_register.lemma_dom_keys();
    d.new_contracts_to_register.lemma_dom_keys();
    d.updated_account_balances.lemma_dom_keys();
    d.updated_contract_balances.lemma_dom_keys();
    d5.updated_shadow_allocs_sums.lemma_dom_keys();
    d5.updated_shadow_spaces.lemma_dom_keys();
    let bkeys = d.updated_account_balances.raw_keys();
    let ckeys = d.updated_contract_balances.raw_keys();
    let gkeys = d5.updated_shadow_allocs_sums.raw_keys();
    let skeys = d5.updated_shadow_spaces.raw_keys();
    let dkeys = d5.deallocs_list.raw_keys();
    lemma_balances_stored(a1, bkeys, d.updated_account_balances@);
    let a3 = balances_stored(a1, bkeys, d.updated_account_balances@)->Ok_0;
    lemma_contract_balances_stored(c2, ckeys, d.updated_contract_balances@);
    let c4 = contract_balances_stored(c2, ckeys, d.updated_contract_balances@)->Ok_0;
    lemma_global_sums_stored(a3, gkeys, d5.updated_shadow_allocs_sums@);
    lemma_spaces_stored(c4, skeys, d5.updated_shadow_spaces@);
    let c7 = spaces_stored(c4, skeys, d5.updated_shadow_spaces@)->Ok_0;
    lemma_deallocs_stored(c7, dkeys, d5.deallocs_list@);
    assert forall|k: Seq<u8>| #[trigger] s.account_balance(k) is Some implies new_accounts.dom().contains(k) && new_accounts[k].balance == s.account_balance(k)->Some_0 by {
        if !s.delta.updated_account_balances.dom().contains(k) {
            assert(s.accounts.dom().contains(k));
            assert(!d.new_accounts_to_register.key_seq().contains(k));
            assert(a1[k] == s.accounts[k]);
            assert(a1.dom().contains(k));
            assert(!d.updated_account_balances.key_seq().contains(k));
            assert(!key_views(bkeys).contains(k));
            assert(a3.dom().contains(k));
            assert(a3[k] == a1[k]);
        }
        let a6 = global_sums_stored(a3, gkeys, d5.updated_shadow_allocs_sums@)->Ok_0;
        assert(new_accounts == a6);
        assert(a3.dom().contains(k));
        assert(a6[k].balance == a3[k].balance);
    }
    assert forall|c: Seq<u8>| #[trigger] s.contract_balance(c) is Some implies new_contracts.dom().contains(c) && new_contracts[c].balance == s.contract_balance(c)->Some_0 by {
        if !s.delta.updated_contract_balances.dom().contains(c) {
            assert(s.contracts.dom().contains(c));
            assert(!d.new_contracts_to_register.key_seq().contains(c));
            assert(c2[c] == s.contracts[c]);
            assert(c2.dom().contains(c));
            assert(!d.updated_contract_balances.key_seq().contains(c));
            assert(!key_views(ckeys).contains(c));
            assert(c4.dom().contains(c));
            assert(c4[c] == c2[c]);
            assert(c7[c].balance == c4[c].balance);
        }
    }
}

/// Applying the changes successfully makes permanent the shadow allocations that were read before:
/// every allocation that read as some value, with its contract's deferred proportional change
/// applied, is held at that value by the contract's permanent shadow space afterwards. This holds of
/// a consistent coin manager whose changes stay in range and whose spread reaches only registered
/// accounts; applying its changes succeeds.
pub proof fn law_apply_keeps_alloc_reads(
    s: CoinManagerView,
    d: CMDelta,
    new_accounts: Map<Seq<u8>, CMAccountBody>,
    new_contracts: Map<Seq<u8>, CMContractBodyView>,
    d5: CMDelta,
    produced: Seq<CMDiskOp>,
    r: Result<(), CMApplyChangesError>,
)
    requires
        d@ == s.delta,
        s.consistent(),
        apply_changes_safe(s.accounts, d),
        spread_accounts_registered(s.accounts, d),
        apply_changes_outcome(s.accounts, s.contracts, d, new_accounts, new_contracts, d5, produced, r),
    ensures
        r is Ok,
        forall|c: Seq<u8>, a: Seq<u8>| #[trigger] s.alloc_value(c, a) is Some ==> {
            &&& new_contracts.dom().contains(c)
            &&& new_contracts[c].shadow_space.allocs.dom().contains(a)
            &&& new_contracts[c].shadow_space.allocs[a] == s.alloc_value(c, a)->Some_0
        },
{
    law_apply_succeeds(s, d, new_accounts, new_contracts, d5, produced, r);
    assert(r == Ok::<(), CMApplyChangesError>(()));
    let a1 = accounts_with_new(s.accounts, d);
    let c2 = contracts_with_new(s.contracts, d);
    lemma_registered_accounts(s.accounts, d.new_accounts_to_register.raw_keys(), d.new_accounts_to_register@);
    lemma_registered_contracts(s.contracts, d.new_contracts_to_register.raw_keys(), d.new_contracts_to_register@);
    d.new_contracts_to_register.lemma_dom_keys();
    d.updated_account_balances.lemma_dom_keys();
    d.updated_contract_balances.lemma_dom_keys();
    d5.updated_shadow_spaces.lemma_dom_keys();
    d5.deallocs_list.lemma_dom_keys();
    let bkeys = d.updated_account_balances.raw_keys();
    let ckeys = d.updated_contract_balances.raw_keys();
    let gkeys = d5.updated_shadow_allocs_sums.raw_keys();
    let skeys = d5.updated_shadow_spaces.raw_keys();
    let dkeys = d5.deallocs_list.raw_keys();
    lemma_balances_stored(a1, bkeys, d.updated_account_balances@);
    let a3 = balances_stored(a1, bkeys, d.updated_account_balances@)->Ok_0;
    lemma_contract_balances_stored(c2, ckeys, d.updated_contract_balances@);
    let c4 = contract_balances_stored(c2, ckeys, d.updated_contract_balances@)->Ok_0;
    lemma_global_sums_stored(a3, gkeys, d5.updated_shadow_allocs_sums@);
    lemma_spaces_stored(c4, skeys, d5.updated_shadow_spaces@);
    let c7 = spaces_stored(c4, skeys, d5.updated_shadow_spaces@)->Ok_0;
    lemma_deallocs_stored(c7, dkeys, d5.deallocs_list@);
    assert(d5.deallocs_list@.dom() == d5@.deallocs_list.dom());
    assert(d5.updated_shadow_spaces@.dom() == d5@.updated_shadow_spaces.dom());
    assert forall|c: Seq<u8>, a: Seq<u8>| #[trigger] s.alloc_value(c, a) is Some implies {
        &&& new_contracts.dom().contains(c)
        &&& new_contracts[c].shadow_space.allocs.dom().contains(a)
        &&& new_contracts[c].shadow_space.allocs[a] == s.alloc_value(c, a)->Some_0
    } by {
        assert(!s.is_just_deallocated(c, a));
        assert(!(key_views(dkeys).contains(c) && key_views(d5.deallocs_list@[c]@).contains(a))) by {
            if key_views(dkeys).contains(c) {
                assert(d5.deallocs_list.key_seq().contains(c));
                assert(d5@.deallocs_list.dom().contains(c));
                assert(d5@.deallocs_list[c] == key_views(d5.deallocs_list@[c]@));
            }
        }
        if s.delta.updated_shadow_spaces.dom().contains(c) {
            assert(d5@.updated_shadow_spaces.dom().contains(c));
            assert(d5.updated_shadow_spaces.key_seq().contains(c));
            assert(key_views(skeys).contains(c));
            assert(c4.dom().contains(c));
            assert(c7[c].shadow_space == d5.updated_shadow_spaces@[c]@);
            assert(d5.updated_shadow_spaces@[c]@ == d5@.updated_shadow_spaces[c]);
            assert(c7[c].shadow_space.allocs.dom().contains(a));
        } else {
            assert(s.contracts.dom().contains(c));
            assert(!d.new_contracts_to_register.key_seq().contains(c));
            assert(c2[c] == s.contracts[c]);
            assert(c2.dom().contains(c));
            assert(c4.dom().contains(c));
            assert(c4[c].shadow_space == c2[c].shadow_space);
            assert(!d5.updated_shadow_spaces.key_seq().contains(c));
            assert(!key_views(skeys).contains(c));
            assert(c7[c] == c4[c]);
            assert(c7[c].shadow_space.allocs.dom().contains(a));
        }
    }
}

/// An account's global shadow allocs sum as a spread of deferred changes sees it: the sum being
/// built when the spread holds one, else its stored sum, else zero.
pub open spec fn running_sum(st: Option<(Map<Seq<u8>, u128>, Seq<Key>)>, globals: Map<Seq<u8>, u128>, a: Seq<u8>) -> int {
    match st {
        Some((m, _)) => if m.dom().contains(a) {
            m[a] as int
        } else if globals.dom().contains(a) {
            globals[a] as int
        } else {
            0
        },
        None => 0,
    }
}

/// The signed amount by which a shadow space's deferred change moves an allocation.
pub open spec fn signed_view_share(sp: ShadowSpaceView, a: Seq<u8>) -> int {
    let share = deferred_share(sp.allocs[a], sp.deferred, sp.allocs_sum);
    if sp.deferred > 0 {
        share
    } else {
        -share
    }
}

/// A deferred change never moves an allocation by a negative amount.
pub proof fn lemma_share_nonneg(b: u128, d: i64, s: u64)
    ensures
        deferred_share(b, d, s) >= 0,
{
    if deferred_applies(d, s) {
        let num: int = b * (abs_i64(d) * 100_000_000);
        let den: int = base_allocs_sum(s, d) * 100_000_000;
        assert(num >= 0) by (nonlinear_arith)
            requires
                b >= 0,
                abs_i64(d) >= 0,
                num == b * (abs_i64(d) * 100_000_000);
        assert(den > 0);
        assert(num / den >= 0) by (nonlinear_arith)
            requires
                num >= 0,
                den > 0;
    }
}

/// A spread that has failed stays failed.
pub proof fn lemma_spread_space_none(akeys: Seq<Key>, sp: ShadowSpaceView, globals: Map<Seq<u8>, u128>)
    ensures
        spread_space(None, akeys, sp, globals) is None,
    decreases akeys.len(),
{
    if akeys.len() > 0 {
        lemma_spread_space_none(akeys.drop_last(), sp, globals);
    }
}

/// Spreading one space's deferred change over allocations without repeats moves an account's
/// running sum by its signed share exactly when the account is among them, and keeps every sum
/// already held.
pub proof fn lemma_spread_space_sum(
    st: Option<(Map<Seq<u8>, u128>, Seq<Key>)>,
    akeys: Seq<Key>,
    sp: ShadowSpaceView,
    globals: Map<Seq<u8>, u128>,
    a: Seq<u8>,
)
    requires
        st is Some,
        spread_space(st, akeys, sp, globals) is Some,
        key_views(akeys).no_duplicates(),
    ensures
        running_sum(spread_space(st, akeys, sp, globals), globals, a) == running_sum(st, globals, a)
            + (if key_views(akeys).contains(a) { signed_view_share(sp, a) } else { 0 }),
        st.unwrap().0.dom().subset_of(spread_space(st, akeys, sp, globals).unwrap().0.dom()),
    decreases akeys.len(),
{
    if akeys.len() > 0 {
        let prev = akeys.drop_last();
        let last = akeys.last();
        assert(key_views(prev) =~= key_views(akeys).drop_last());
        lemma_key_views_last(akeys);
        let r0 = spread_space(st, prev, sp, globals);
        if r0 is None {
            assert(spread_space(st, akeys, sp, globals) is None);
        }
        lemma_spread_space_sum(st, prev, sp, globals, a);
        lemma_share_nonneg(sp.allocs[last@], sp.deferred, sp.allocs_sum);
        assert(key_views(akeys)[akeys.len() - 1] == last@);
        if last@ == a {
            assert(!key_views(prev).contains(a)) by {
                if key_views(prev).contains(a) {
                    let i = choose|i: int| 0 <= i < key_views(prev).len() && key_views(prev)[i] == a;
                    assert(key_views(akeys)[i] == a);
                }
            }
        }
    } else {
        assert(key_views(akeys) =~= Seq::<Seq<u8>>::empty());
    }
}

/// Spreading the deferred changes of shadow spaces in order moves an account's running sum by the
/// total of its signed shares, and keeps every sum already held.
pub proof fn lemma_spread_spaces_sum(
    st: Option<(Map<Seq<u8>, u128>, Seq<Key>)>,
    ckeys: Seq<Key>,
    spaces: Map<Seq<u8>, ShadowSpace>,
    globals: Map<Seq<u8>, u128>,
    a: Seq<u8>,
)
    requires
        st is Some,
        spread_spaces(st, ckeys, spaces, globals) is Some,
        forall|i: int| 0 <= i < ckeys.len() ==> (#[trigger] spaces[ckeys[i]@]).allocs.key_seq().no_duplicates(),
    ensures
        running_sum(spread_spaces(st, ckeys, spaces, globals), globals, a) == running_sum(st, globals, a)
            + deferred_sum(spaces, ckeys, a),
        st.unwrap().0.dom().subset_of(spread_spaces(st, ckeys, spaces, globals).unwrap().0.dom()),
    decreases ckeys.len(),
{
    if ckeys.len() > 0 {
        let prev = ckeys.drop_last();
        let c = ckeys.last();
        let sp = spaces[c@];
        let r0 = spread_spaces(st, prev, spaces, globals);
        if r0 is None {
            lemma_spread_space_none(sp.allocs.raw_keys(), sp@, globals);
        }
        assert forall|i: int| 0 <= i < prev.len() implies (#[trigger] spaces[prev[i]@]).allocs.key_seq().no_duplicates() by {
            assert(prev[i] == ckeys[i]);
        }
        lemma_spread_spaces_sum(st, prev, spaces, globals, a);
        assert(sp == spaces[ckeys[ckeys.len() - 1]@]);
        sp.allocs.lemma_dom_keys();
        lemma_spread_space_sum(r0, sp.allocs.raw_keys(), sp@, globals, a);
    }
}

/// Applying the changes successfully makes permanent the global shadow allocs sums that were read
/// before: every account whose sum read as some value holds, in its permanent body afterwards, that
/// value moved by the deferred changes of the changed shadow spaces, as the previewing read adds
/// them. This holds of a consistent coin manager whose changes stay in range and whose spread
/// reaches only registered accounts; applying its changes succeeds. (Each shadow space lists its
/// allocated accounts without repeats, as every key map does.)
pub proof fn law_apply_keeps_global_sum_reads(
    s: CoinManagerView,
    d: CMDelta,
    new_accounts: Map<Seq<u8>, CMAccountBody>,
    new_contracts: Map<Seq<u8>, CMContractBodyView>,
    d5: CMDelta,
    produced: Seq<CMDiskOp>,
    r: Result<(), CMApplyChangesError>,
)
    requires
        d@ == s.delta,
        s.consistent(),
        apply_changes_safe(s.accounts, d),
        spread_accounts_registered(s.accounts, d),
        apply_changes_outcome(s.accounts, s.contracts, d, new_accounts, new_contracts, d5, produced, r),
        d.updated_shadow_spaces.key_seq().no_duplicates(),
        forall|c: Seq<u8>| #[trigger] d.updated_shadow_spaces@.dom().contains(c)
            ==> d.updated_shadow_spaces@[c].allocs.key_seq().no_duplicates(),
    ensures
        r is Ok,
        forall|k: Seq<u8>| #[trigger] s.base_global_sum(k) is Some ==> {
            &&& new_accounts.dom().contains(k)
            &&& new_accounts[k].global_shadow_allocs_sum == s.base_global_sum(k)->Some_0
                + deferred_sum(d.updated_shadow_spaces@, d.updated_shadow_spaces.raw_keys(), k)
            &&& s.global_sum_read(k) == Some(new_accounts[k].global_shadow_allocs_sum as int)
        },
{
    let sm = d.updated_shadow_spaces@;
    let ks = d.updated_shadow_spaces.raw_keys();
    d.updated_shadow_spaces.lemma_dom_keys();
    assert forall|i: int| 0 <= i < ks.len() implies sm.dom().contains(#[trigger] ks[i]@) by {
        assert(key_views(ks)[i] == ks[i]@);
        assert(d.updated_shadow_spaces.key_seq().contains(ks[i]@));
    }
    assert(key_views(ks).to_set() =~= s.delta.updated_shadow_spaces.dom()) by {
        assert forall|k: Seq<u8>| key_views(ks).to_set().contains(k) <==> s.delta.updated_shadow_spaces.dom().contains(k) by {
            assert(key_views(ks) == d.updated_shadow_spaces.key_seq());
        }
    }
    assert forall|k: Seq<u8>| deferred_sum(sm, ks, k) == deferred_total(s.delta.updated_shadow_spaces, k) by {
        lemma_exec_shares(sm, ks, k);
        lemma_total_is(s.delta.updated_shadow_spaces, key_views(ks), k);
    }
    law_apply_succeeds(s, d, new_accounts, new_contracts, d5, produced, r);
    assert(r == Ok::<(), CMApplyChangesError>(()));
    let a1 = accounts_with_new(s.accounts, d);
    let c2 = contracts_with_new(s.contracts, d);
    lemma_registered_accounts(s.accounts, d.new_accounts_to_register.raw_keys(), d.new_accounts_to_register@);
    d.new_accounts_to_register.lemma_dom_keys();
    d.updated_shadow_spaces.lemma_dom_keys();
    d5.updated_shadow_allocs_sums.lemma_dom_keys();
    let bkeys = d.updated_account_balances.raw_keys();
    let ckeys = d.updated_contract_balances.raw_keys();
    let gkeys = d5.updated_shadow_allocs_sums.raw_keys();
    lemma_balances_stored(a1, bkeys, d.updated_account_balances@);
    let a3 = balances_stored(a1, bkeys, d.updated_account_balances@)->Ok_0;
    lemma_contract_balances_stored(c2, ckeys, d.updated_contract_balances@);
    lemma_global_sums_stored(a3, gkeys, d5.updated_shadow_allocs_sums@);
    let a6 = global_sums_stored(a3, gkeys, d5.updated_shadow_allocs_sums@)->Ok_0;
    assert(delta_spread(d, d5, s.accounts));
    assert(new_accounts == a6);
    let g = globals_of(a1);
    let st0 = Some((d.updated_shadow_allocs_sums@, d.updated_shadow_allocs_sums.raw_keys()));
    let skeys = d.updated_shadow_spaces.raw_keys();
    let spaces = d.updated_shadow_spaces@;
    let fin = spread_spaces(st0, skeys, spaces, g);
    assert(fin == spread_of(s.accounts, d));
    assert(d5.updated_shadow_allocs_sums@ == fin.unwrap().0);
    assert forall|i: int| 0 <= i < skeys.len() implies (#[trigger] spaces[skeys[i]@]).allocs.key_seq().no_duplicates() by {
        assert(d.updated_shadow_spaces.key_seq()[i] == skeys[i]@);
        assert(d.updated_shadow_spaces.key_seq().contains(skeys[i]@));
    }
    assert forall|k: Seq<u8>| #[trigger] s.base_global_sum(k) is Some implies {
        &&& new_accounts.dom().contains(k)
        &&& new_accounts[k].global_shadow_allocs_sum == s.base_global_sum(k)->Some_0 + deferred_sum(spaces, skeys, k)
    } by {
        lemma_spread_spaces_sum(st0, skeys, spaces, g, k);
        if !d.updated_shadow_allocs_sums@.dom().contains(k) {
            assert(s.accounts.dom().contains(k));
            assert(!d.new_accounts_to_register.key_seq().contains(k));
            assert(a1[k] == s.accounts[k]);
            assert(a1.dom().contains(k));
            assert(g.dom().contains(k));
            assert(g[k] == a1[k].global_shadow_allocs_sum);
        }
        if fin.unwrap().0.dom().contains(k) {
            assert(d5.updated_shadow_allocs_sums.key_seq().contains(k));
            assert(key_views(gkeys).contains(k));
            assert(a3.dom().contains(k));
            assert(a6[k].global_shadow_allocs_sum == d5.updated_shadow_allocs_sums@[k]);
        } else {
            assert(!d.updated_shadow_allocs_sums@.dom().contains(k));
            assert(!d5.updated_shadow_allocs_sums@.dom().contains(k));
            assert(!d5.updated_shadow_allocs_sums.key_seq().contains(k));
            assert(!key_views(gkeys).contains(k));
            assert(a3.dom().contains(k));
            assert(a6[k] == a3[k]);
            assert(a3[k].global_shadow_allocs_sum == a1[k].global_shadow_allocs_sum);
        }
    }
}

/// A coin manager built over permanent bodies is consistent, and so is any coin manager once its
/// ephemeral changes are flushed (after applying them, in particular).
pub proof fn law_constructed_consistent(
    accounts: Map<Seq<u8>, CMAccountBody>,
    contracts: Map<Seq<u8>, CMContractBodyView>,
    s: CoinManagerView,
)
    ensures
        CoinManagerView::with_permanent(accounts, contracts).consistent(),
        (CoinManagerView { delta: CMDeltaView::empty(), backup: CMDeltaView::empty(), ..s }).consistent(),
{
}

/// Every public operation keeps a coin manager consistent: each ephemeral operation that succeeds,
/// each shadow operation whether it succeeds or fails (a failure may leave part of its work), and
/// backing up, rolling back and flushing the ephemeral changes.
pub proof fn law_operations_keep_consistent(s: CoinManagerView, k: Key, c: Key, amount: u64)
    requires
        s.consistent(),
    ensures
        s.register_account(k, amount) matches Ok(t) ==> t.consistent(),
        s.register_contract(c, amount) matches Ok(t) ==> t.consistent(),
        s.account_balance_up(k, amount) matches Ok(t) ==> t.consistent(),
        s.account_balance_down(k, amount) matches Ok(t) ==> t.consistent(),
        s.contract_balance_up(c, amount) matches Ok(t) ==> t.consistent(),
        s.contract_balance_down(c, amount) matches Ok(t) ==> t.consistent(),
        s.shadow_alloc_account(c, k) matches Ok(t) ==> t.consistent(),
        s.shadow_dealloc_account(c, k) matches Ok(t) ==> t.consistent(),
        s.shadow_up(c, k, amount).0.consistent(),
        s.shadow_down(c, k, amount).0.consistent(),
        s.shadow_up_all(c, amount).0.consistent(),
        s.shadow_down_all(c, amount).0.consistent(),
        (CoinManagerView { backup: s.delta, ..s }).consistent(),
        (CoinManagerView { delta: s.backup, ..s }).consistent(),
{
    let e = s.ensure_space(c@);
    assert(e.consistent());
    assert(e.accounts == s.accounts && e.contracts == s.contracts);
}

/// Every account whose global shadow allocs sum the spreading of the deferred changes sets is
/// registered, permanently or by the changes themselves.
pub open spec fn spread_accounts_registered(accounts: Map<Seq<u8>, CMAccountBody>, d: CMDelta) -> bool {
    spread_of(accounts, d) is Some ==> forall|k: Seq<u8>| #[trigger] spread_of(accounts, d).unwrap().0.dom().contains(k)
        ==> accounts_with_new(accounts, d).dom().contains(k)
}

/// Applying the changes of a consistent coin manager succeeds when they stay in range and every
/// account that takes a share of a deferred change is registered: no step meets an unregistered
/// account or contract.
pub proof fn law_apply_succeeds(
    s: CoinManagerView,
    d: CMDelta,
    new_accounts: Map<Seq<u8>, CMAccountBody>,
    new_contracts: Map<Seq<u8>, CMContractBodyView>,
    d5: CMDelta,
    produced: Seq<CMDiskOp>,
    r: Result<(), CMApplyChangesError>,
)
    requires
        d@ == s.delta,
        s.consistent(),
        apply_changes_safe(s.accounts, d),
        spread_accounts_registered(s.accounts, d),
        apply_changes_outcome(s.accounts, s.contracts, d, new_accounts, new_contracts, d5, produced, r),
    ensures
        r is Ok,
{
    let a1 = accounts_with_new(s.accounts, d);
    let c2 = contracts_with_new(s.contracts, d);
    lemma_registered_accounts(s.accounts, d.new_accounts_to_register.raw_keys(), d.new_accounts_to_register@);
    lemma_registered_contracts(s.contracts, d.new_contracts_to_register.raw_keys(), d.new_contracts_to_register@);
    d.updated_account_balances.lemma_dom_keys();
    d.updated_contract_balances.lemma_dom_keys();
    d.updated_shadow_spaces.lemma_dom_keys();
    d.deallocs_list.lemma_dom_keys();
    let bkeys = d.updated_account_balances.raw_keys();
    let mb = d.updated_account_balances@;
    let ckeys = d.updated_contract_balances.raw_keys();
    let mc = d.updated_contract_balances@;
    assert forall|m: Map<Seq<u8>, CMAccountBody>, k: Key| m.dom().contains(k@) implies
        (#[trigger] balance_step(mb)(m, k)) is Ok && balance_step(mb)(m, k)->Ok_0.dom() == m.dom() by {
        assert(m.insert(k@, CMAccountBody { balance: mb[k@], ..m[k@] }).dom() =~= m.dom());
    }
    assert forall|i: int| 0 <= i < bkeys.len() implies a1.dom().contains(#[trigger] bkeys[i]@) by {
        assert(d.updated_account_balances.key_seq()[i] == bkeys[i]@);
        assert(d.updated_account_balances.key_seq().contains(bkeys[i]@));
        assert(s.delta.updated_account_balances.dom().contains(bkeys[i]@));
        assert(s.accounts.dom().contains(bkeys[i]@));
    }
    lemma_step_fold_ok(a1, bkeys, balance_step(mb));
    let a3 = balances_stored(a1, bkeys, mb)->Ok_0;
    assert forall|m: Map<Seq<u8>, CMContractBodyView>, k: Key| m.dom().contains(k@) implies
        (#[trigger] contract_balance_step(mc)(m, k)) is Ok && contract_balance_step(mc)(m, k)->Ok_0.dom() == m.dom() by {
        assert(m.insert(k@, CMContractBodyView { balance: mc[k@], ..m[k@] }).dom() =~= m.dom());
    }
    assert forall|i: int| 0 <= i < ckeys.len() implies c2.dom().contains(#[trigger] ckeys[i]@) by {
        assert(d.updated_contract_balances.key_seq()[i] == ckeys[i]@);
        assert(d.updated_contract_balances.key_seq().contains(ckeys[i]@));
        assert(s.delta.updated_contract_balances.dom().contains(ckeys[i]@));
        assert(s.contracts.dom().contains(ckeys[i]@));
    }
    lemma_step_fold_ok(c2, ckeys, contract_balance_step(mc));
    let c4 = contract_balances_stored(c2, ckeys, mc)->Ok_0;
    assert(delta_spread(d, d5, s.accounts));
    let gkeys = d5.updated_shadow_allocs_sums.raw_keys();
    let mg = d5.updated_shadow_allocs_sums@;
    d5.updated_shadow_allocs_sums.lemma_dom_keys();
    assert(mg == spread_of(s.accounts, d).unwrap().0);
    assert forall|m: Map<Seq<u8>, CMAccountBody>, k: Key| m.dom().contains(k@) implies
        (#[trigger] global_sum_step(mg)(m, k)) is Ok && global_sum_step(mg)(m, k)->Ok_0.dom() == m.dom() by {
        assert(m.insert(k@, CMAccountBody { global_shadow_allocs_sum: mg[k@], ..m[k@] }).dom() =~= m.dom());
    }
    assert forall|i: int| 0 <= i < gkeys.len() implies a3.dom().contains(#[trigger] gkeys[i]@) by {
        assert(d5.updated_shadow_allocs_sums.key_seq()[i] == gkeys[i]@);
        assert(d5.updated_shadow_allocs_sums.key_seq().contains(gkeys[i]@));
        assert(mg.dom().contains(gkeys[i]@));
    }
    lemma_step_fold_ok(a3, gkeys, global_sum_step(mg));
    let skeys = d5.updated_shadow_spaces.raw_keys();
    let ms = d5.updated_shadow_spaces@;
    assert forall|m: Map<Seq<u8>, CMContractBodyView>, k: Key| m.dom().contains(k@) implies
        (#[trigger] space_step(ms)(m, k)) is Ok && space_step(ms)(m, k)->Ok_0.dom() == m.dom() by {
        assert(m.insert(k@, CMContractBodyView { shadow_space: ms[k@]@, ..m[k@] }).dom() =~= m.dom());
    }
    assert forall|i: int| 0 <= i < skeys.len() implies c4.dom().contains(#[trigger] skeys[i]@) by {
        assert(skeys == d.updated_shadow_spaces.raw_keys());
        assert(d.updated_shadow_spaces.key_seq()[i] == skeys[i]@);
        assert(d.updated_shadow_spaces.key_seq().contains(skeys[i]@));
        assert(s.delta.updated_shadow_spaces.dom().contains(skeys[i]@));
    }
    lemma_step_fold_ok(c4, skeys, space_step(ms));
    let c7 = spaces_stored(c4, skeys, ms)->Ok_0;
    let dkeys = d5.deallocs_list.raw_keys();
    let md = d5.deallocs_list@;
    assert forall|m: Map<Seq<u8>, CMContractBodyView>, k: Key| m.dom().contains(k@) implies
        (#[trigger] dealloc_step(md)(m, k)) is Ok && dealloc_step(md)(m, k)->Ok_0.dom() == m.dom() by {
        let b = CMContractBodyView {
            shadow_space: ShadowSpaceView {
                allocs: super::apply_spec::accounts_removed(m[k@].shadow_space.allocs, md[k@]@),
                ..m[k@].shadow_space
            },
            ..m[k@]
        };
        assert(m.insert(k@, b).dom() =~= m.dom());
    }
    assert forall|i: int| 0 <= i < dkeys.len() implies c7.dom().contains(#[trigger] dkeys[i]@) by {
        assert(dkeys == d.deallocs_list.raw_keys());
        assert(d.deallocs_list.key_seq()[i] == dkeys[i]@);
        assert(d.deallocs_list.key_seq().contains(dkeys[i]@));
        assert(d@.deallocs_list.dom().contains(dkeys[i]@));
    }
    lemma_step_fold_ok(c7, dkeys, dealloc_step(md));
}

} // verus!
