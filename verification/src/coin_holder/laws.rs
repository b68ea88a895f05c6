use super::account_coin_holder::{account_apply_outcome, accounts_registered, partly_flushed, AccountCoinHolderView};
use super::apply::{
    account_balance_step, account_sum_step, contract_balance_step, register_account_step, register_contract_step,
    space_step,
};
use super::bodies::{CHAccountBodyView, CHContractBodyView, ShadowSpaceView};
use super::contract_ledger::ContractLedgerView;
use super::contract_specs::{contract_apply_outcome, contracts_registered};
use super::deltas::{spaces_view, AccountDelta, AccountDeltaView, CHContractDelta, CHContractDeltaView};
use crate::fold::step_fold;
use crate::keymap::{key_views, Key};
use vstd::prelude::*;

verus! {

/// The key views of a non-empty sequence are those of all but its last key, and its last key.
proof fn lemma_key_views_last(keys: Seq<Key>)
    requires
        keys.len() > 0,
    ensures
        forall|k: Seq<u8>| key_views(keys).contains(k) <==> key_views(keys.drop_last()).contains(k) || k == keys.last()@,
{
    let ks = keys.drop_last();
    assert(key_views(keys) =~= key_views(ks).push(keys.last()@));
    assert forall|k: Seq<u8>| key_views(keys).contains(k) <==> key_views(ks).contains(k) || k == keys.last()@ by {
        crate::keymap::lemma_push_contains(key_views(ks), keys.last()@);
    }
}

/// Registering accounts adds each of them with zero balance and zero shadow allocs sum.
proof fn lemma_registered(a: Map<Seq<u8>, CHAccountBodyView>, keys: Seq<Key>)
    ensures
        step_fold(a, keys, register_account_step()) is Ok,
        forall|k: Seq<u8>| #[trigger] step_fold(a, keys, register_account_step())->Ok_0.dom().contains(k)
            <==> a.dom().contains(k) || key_views(keys).contains(k),
        forall|k: Seq<u8>| #[trigger] step_fold(a, keys, register_account_step())->Ok_0.dom().contains(k) ==>
            step_fold(a, keys, register_account_step())->Ok_0[k] == if key_views(keys).contains(k) {
                CHAccountBodyView { balance: 0, shadow_allocs_sum: 0 }
            } else {
                a[k]
            },
    decreases keys.len(),
{
    if keys.len() > 0 {
        lemma_registered(a, keys.drop_last());
        lemma_key_views_last(keys);
    }
}

/// Storing balances succeeds exactly when every key has a body; then each key's balance is stored
/// and nothing else changes.
proof fn lemma_balances_stored(a: Map<Seq<u8>, CHAccountBodyView>, keys: Seq<Key>, m: Map<Seq<u8>, u64>)
    requires
        forall|k: Seq<u8>| key_views(keys).contains(k) ==> a.dom().contains(k),
    ensures
        step_fold(a, keys, account_balance_step(m)) is Ok,
        step_fold(a, keys, account_balance_step(m))->Ok_0.dom() == a.dom(),
        forall|k: Seq<u8>| #[trigger] a.dom().contains(k) ==> step_fold(a, keys, account_balance_step(m))->Ok_0[k] == if key_views(keys).contains(k) {
            CHAccountBodyView { balance: m[k], ..a[k] }
        } else {
            a[k]
        },
    decreases keys.len(),
{
    if keys.len() > 0 {
        lemma_key_views_last(keys);
        lemma_balances_stored(a, keys.drop_last(), m);
        let prev = step_fold(a, keys.drop_last(), account_balance_step(m))->Ok_0;
        let k0 = keys.last();
        assert(key_views(keys)[keys.len() - 1] == k0@);
        assert(prev.dom().contains(k0@));
        assert(prev.insert(k0@, CHAccountBodyView { balance: m[k0@], ..prev[k0@] }).dom() =~= a.dom());
    }
}

/// Storing shadow allocs sums succeeds exactly when every key has a body; then each key's sum is
/// stored and nothing else changes.
proof fn lemma_sums_stored(a: Map<Seq<u8>, CHAccountBodyView>, keys: Seq<Key>, m: Map<Seq<u8>, u128>)
    requires
        forall|k: Seq<u8>| key_views(keys).contains(k) ==> a.dom().contains(k),
    ensures
        step_fold(a, keys, account_sum_step(m)) is Ok,
        step_fold(a, keys, account_sum_step(m))->Ok_0.dom() == a.dom(),
        forall|k: Seq<u8>| #[trigger] a.dom().contains(k) ==> step_fold(a, keys, account_sum_step(m))->Ok_0[k] == if key_views(keys).contains(k) {
            CHAccountBodyView { shadow_allocs_sum: m[k], ..a[k] }
        } else {
            a[k]
        },
    decreases keys.len(),
{
    if keys.len() > 0 {
        lemma_key_views_last(keys);
        lemma_sums_stored(a, keys.drop_last(), m);
        let prev = step_fold(a, keys.drop_last(), account_sum_step(m))->Ok_0;
        let k0 = keys.last();
        assert(key_views(keys)[keys.len() - 1] == k0@);
        assert(prev.dom().contains(k0@));
        assert(prev.insert(k0@, CHAccountBodyView { shadow_allocs_sum: m[k0@], ..prev[k0@] }).dom() =~= a.dom());
    }
}

/// The ephemeral account changes fit the permanent accounts: every updated balance or shadow allocs
/// sum belongs to a permanent account or to an account to register.
pub open spec fn account_changes_consistent(accounts: Map<Seq<u8>, CHAccountBodyView>, d: AccountDeltaView) -> bool {
    &&& forall|k: Seq<u8>| #[trigger] d.updated_account_balances.dom().contains(k) ==> accounts.dom().contains(k) || d.is_new(k)
    &&& forall|k: Seq<u8>| #[trigger] d.updated_shadow_allocs_sums.dom().contains(k) ==> accounts.dom().contains(k) || d.is_new(k)
}

/// Applying consistent account changes succeeds, and afterwards every account reads as it did
/// before, except that an account just registered and not yet updated reads zero.
pub proof fn law_account_apply_persists(accounts: Map<Seq<u8>, CHAccountBodyView>, d: AccountDelta, backup: AccountDeltaView)
    requires
        account_changes_consistent(accounts, d@),
    ensures
        account_apply_outcome(accounts, d) is Ok,
        ({
            let before = AccountCoinHolderView { accounts, delta: d@, backup };
            let after = AccountCoinHolderView {
                accounts: account_apply_outcome(accounts, d)->Ok_0,
                delta: partly_flushed(d@),
                backup: partly_flushed(backup),
            };
            forall|k: Seq<u8>| {
                &&& #[trigger] after.balance(k) == if d@.is_new(k) && !d@.updated_account_balances.dom().contains(k) {
                    Some(0u64)
                } else {
                    before.balance(k)
                }
                &&& after.shadow_allocs_sum(k) == if d@.is_new(k) && !d@.updated_shadow_allocs_sums.dom().contains(k) {
                    Some(0u128)
                } else {
                    before.shadow_allocs_sum(k)
                }
            }
        }),
{
    let a1 = accounts_registered(accounts, d);
    lemma_registered(accounts, d.new_accounts_to_register@);
    d.updated_account_balances.lemma_dom_keys();
    d.updated_shadow_allocs_sums.lemma_dom_keys();
    assert forall|k: Seq<u8>| key_views(d.updated_account_balances.raw_keys()).contains(k) implies a1.dom().contains(k) by {
        assert(d.updated_account_balances.key_seq().contains(k));
        assert(d@.updated_account_balances.dom().contains(k));
    }
    lemma_balances_stored(a1, d.updated_account_balances.raw_keys(), d.updated_account_balances@);
    let a2 = step_fold(a1, d.updated_account_balances.raw_keys(), account_balance_step(d.updated_account_balances@))->Ok_0;
    assert forall|k: Seq<u8>| key_views(d.updated_shadow_allocs_sums.raw_keys()).contains(k) implies a2.dom().contains(k) by {
        assert(d.updated_shadow_allocs_sums.key_seq().contains(k));
        assert(d@.updated_shadow_allocs_sums.dom().contains(k));
    }
    lemma_sums_stored(a2, d.updated_shadow_allocs_sums.raw_keys(), d.updated_shadow_allocs_sums@);
    let a3 = step_fold(a2, d.updated_shadow_allocs_sums.raw_keys(), account_sum_step(d.updated_shadow_allocs_sums@))->Ok_0;
    assert(account_apply_outcome(accounts, d) == Ok::<_, Key>(a3));
    let before = AccountCoinHolderView { accounts, delta: d@, backup };
    let after = AccountCoinHolderView { accounts: a3, delta: partly_flushed(d@), backup: partly_flushed(backup) };
    assert forall|k: Seq<u8>| {
        &&& #[trigger] after.balance(k) == if d@.is_new(k) && !d@.updated_account_balances.dom().contains(k) {
            Some(0u64)
        } else {
            before.balance(k)
        }
        &&& after.shadow_allocs_sum(k) == if d@.is_new(k) && !d@.updated_shadow_allocs_sums.dom().contains(k) {
            Some(0u128)
        } else {
            before.shadow_allocs_sum(k)
        }
    } by {
        assert(d.updated_account_balances.key_seq() == key_views(d.updated_account_balances.raw_keys()));
        assert(d.updated_account_balances.key_seq().contains(k) == d.updated_account_balances@.dom().contains(k));
        assert(d.updated_shadow_allocs_sums.key_seq() == key_views(d.updated_shadow_allocs_sums.raw_keys()));
        assert(d.updated_shadow_allocs_sums.key_seq().contains(k) == d.updated_shadow_allocs_sums@.dom().contains(k));
        if a1.dom().contains(k) {
            assert(a2.dom().contains(k));
            assert(a3.dom().contains(k));
        } else {
            assert(!a2.dom().contains(k));
            assert(!a3.dom().contains(k));
        }
    }
}

/// Registering contracts adds each of them with a zero balance and an empty shadow space.
proof fn lemma_contracts_registered(c: Map<Seq<u8>, CHContractBodyView>, keys: Seq<Key>)
    ensures
        step_fold(c, keys, register_contract_step()) is Ok,
        forall|k: Seq<u8>| #[trigger] step_fold(c, keys, register_contract_step())->Ok_0.dom().contains(k)
            <==> c.dom().contains(k) || key_views(keys).contains(k),
        forall|k: Seq<u8>| #[trigger] step_fold(c, keys, register_contract_step())->Ok_0.dom().contains(k) ==>
            step_fold(c, keys, register_contract_step())->Ok_0[k] == if key_views(keys).contains(k) {
                CHContractBodyView { balance: 0, shadow_space: ShadowSpaceView::empty() }
            } else {
                c[k]
            },
    decreases keys.len(),
{
    if keys.len() > 0 {
        lemma_contracts_registered(c, keys.drop_last());
        lemma_key_views_last(keys);
    }
}

/// Storing contract balances succeeds exactly when every key has a body; then each key's balance is
/// stored and nothing else changes.
proof fn lemma_contract_balances_stored(c: Map<Seq<u8>, CHContractBodyView>, keys: Seq<Key>, m: Map<Seq<u8>, u64>)
    requires
        forall|k: Seq<u8>| key_views(keys).contains(k) ==> c.dom().contains(k),
    ensures
        step_fold(c, keys, contract_balance_step(m)) is Ok,
        step_fold(c, keys, contract_balance_step(m))->Ok_0.dom() == c.dom(),
        forall|k: Seq<u8>| #[trigger] c.dom().contains(k) ==> step_fold(c, keys, contract_balance_step(m))->Ok_0[k] == if key_views(keys).contains(k) {
            CHContractBodyView { balance: m[k], ..c[k] }
        } else {
            c[k]
        },
    decreases keys.len(),
{
    if keys.len() > 0 {
        lemma_key_views_last(keys);
        lemma_contract_balances_stored(c, keys.drop_last(), m);
        let prev = step_fold(c, keys.drop_last(), contract_balance_step(m))->Ok_0;
        let k0 = keys.last();
        assert(key_views(keys)[keys.len() - 1] == k0@);
        assert(prev.dom().contains(k0@));
        assert(prev.insert(k0@, CHContractBodyView { balance: m[k0@], ..prev[k0@] }).dom() =~= c.dom());
    }
}

/// Storing shadow spaces succeeds exactly when every key has a body; then each key's space is stored
/// and nothing else changes.
proof fn lemma_spaces_stored(c: Map<Seq<u8>, CHContractBodyView>, keys: Seq<Key>, m: Map<Seq<u8>, ShadowSpaceView>)
    requires
        forall|k: Seq<u8>| key_views(keys).contains(k) ==> c.dom().contains(k),
    ensures
        step_fold(c, keys, space_step(m)) is Ok,
        step_fold(c, keys, space_step(m))->Ok_0.dom() == c.dom(),
        forall|k: Seq<u8>| #[trigger] c.dom().contains(k) ==> step_fold(c, keys, space_step(m))->Ok_0[k] == if key_views(keys).contains(k) {
            CHContractBodyView { shadow_space: m[k], ..c[k] }
        } else {
            c[k]
        },
    decreases keys.len(),
{
    if keys.len() > 0 {
        lemma_key_views_last(keys);
        lemma_spaces_stored(c, keys.drop_last(), m);
        let prev = step_fold(c, keys.drop_last(), space_step(m))->Ok_0;
        let k0 = keys.last();
        assert(key_views(keys)[keys.len() - 1] == k0@);
        assert(prev.dom().contains(k0@));
        assert(prev.insert(k0@, CHContractBodyView { shadow_space: m[k0@], ..prev[k0@] }).dom() =~= c.dom());
    }
}

/// The ephemeral contract changes fit the permanent contracts: every updated balance or shadow space
/// belongs to a permanent contract or to a contract to register, and no account is deallocated.
pub open spec fn contract_changes_consistent(contracts: Map<Seq<u8>, CHContractBodyView>, d: CHContractDeltaView) -> bool {
    &&& forall|c: Seq<u8>| #[trigger] d.updated_contract_balances.dom().contains(c) ==> contracts.dom().contains(c) || d.is_new(c)
    &&& forall|c: Seq<u8>| #[trigger] d.updated_shadow_spaces.dom().contains(c) ==> contracts.dom().contains(c) || d.is_new(c)
    &&& d.deallocs_list.dom() == Set::<Seq<u8>>::empty()
}

/// Applying consistent contract changes succeeds, and afterwards every contract reads as it did
/// before (balance and shadow space), except that a contract just registered and not yet updated
/// reads a zero balance and an empty shadow space.
pub proof fn law_contract_apply_persists(contracts: Map<Seq<u8>, CHContractBodyView>, d: CHContractDelta)
    requires
        contract_changes_consistent(contracts, d@),
    ensures
        contract_apply_outcome(contracts, d) is Ok,
        ({
            let before = ContractLedgerView { contracts, delta: d@ };
            let after = ContractLedgerView { contracts: contract_apply_outcome(contracts, d)->Ok_0, delta: CHContractDeltaView::empty() };
            forall|c: Seq<u8>| {
                &&& #[trigger] after.balance(c) == if d@.is_new(c) && !d@.updated_contract_balances.dom().contains(c) {
                    Some(0u64)
                } else {
                    before.balance(c)
                }
                &&& after.space(c) == if d@.is_new(c) && !d@.updated_shadow_spaces.dom().contains(c) {
                    Some(ShadowSpaceView::empty())
                } else {
                    before.space(c)
                }
            }
        }),
{
    let c1 = contracts_registered(contracts, d);
    lemma_contracts_registered(contracts, d.new_contracts_to_register@);
    d.updated_contract_balances.lemma_dom_keys();
    d.updated_shadow_spaces.lemma_dom_keys();
    d.deallocs_list.lemma_dom_keys();
    assert forall|k: Seq<u8>| key_views(d.updated_contract_balances.raw_keys()).contains(k) implies c1.dom().contains(k) by {
        assert(d.updated_contract_balances.key_seq().contains(k));
        assert(d@.updated_contract_balances.dom().contains(k));
    }
    lemma_contract_balances_stored(c1, d.updated_contract_balances.raw_keys(), d.updated_contract_balances@);
    let c2 = step_fold(c1, d.updated_contract_balances.raw_keys(), contract_balance_step(d.updated_contract_balances@))->Ok_0;
    assert forall|k: Seq<u8>| key_views(d.updated_shadow_spaces.raw_keys()).contains(k) implies c2.dom().contains(k) by {
        assert(d.updated_shadow_spaces.key_seq().contains(k));
        assert(spaces_view(d.updated_shadow_spaces@).dom().contains(k));
    }
    lemma_spaces_stored(c2, d.updated_shadow_spaces.raw_keys(), spaces_view(d.updated_shadow_spaces@));
    let c3 = step_fold(c2, d.updated_shadow_spaces.raw_keys(), space_step(spaces_view(d.updated_shadow_spaces@)))->Ok_0;
    assert(d.deallocs_list.raw_keys().len() == 0) by {
        if d.deallocs_list.raw_keys().len() > 0 {
            assert(d.deallocs_list.key_seq().contains(d.deallocs_list.key_seq()[0]));
            assert(super::deltas::lists_view(d.deallocs_list@).dom().contains(d.deallocs_list.key_seq()[0]));
        }
    }
    assert(d.deallocs_list.raw_keys() =~= Seq::<Key>::empty());
    assert(contract_apply_outcome(contracts, d) == Ok::<_, Key>(c3));
    let before = ContractLedgerView { contracts, delta: d@ };
    let after = ContractLedgerView { contracts: c3, delta: CHContractDeltaView::empty() };
    assert forall|c: Seq<u8>| {
        &&& #[trigger] after.balance(c) == if d@.is_new(c) && !d@.updated_contract_balances.dom().contains(c) {
            Some(0u64)
        } else {
            before.balance(c)
        }
        &&& after.space(c) == if d@.is_new(c) && !d@.updated_shadow_spaces.dom().contains(c) {
            Some(ShadowSpaceView::empty())
        } else {
            before.space(c)
        }
    } by {
        assert(d.updated_contract_balances.key_seq() == key_views(d.updated_contract_balances.raw_keys()));
        assert(d.updated_contract_balances.key_seq().contains(c) == d.updated_contract_balances@.dom().contains(c));
        assert(d.updated_shadow_spaces.key_seq() == key_views(d.updated_shadow_spaces.raw_keys()));
        assert(d.updated_shadow_spaces.key_seq().contains(c) == d.updated_shadow_spaces@.dom().contains(c));
        if c1.dom().contains(c) {
            assert(c2.dom().contains(c));
            assert(c3.dom().contains(c));
        } else {
            assert(!c2.dom().contains(c));
            assert(!c3.dom().contains(c));
        }
    }
}

/// Increasing an account's allocation and then decreasing it by the same amount succeeds and leaves
/// every allocation and the allocs sum of the contract's shadow space as they were.
pub proof fn law_shadow_up_then_down(l: ContractLedgerView, c: Key, a: Key, amount: u64)
    requires
        l.shadow_up_safe(c, a, amount),
        l.shadow_up(c, a, amount).1 is Ok,
    ensures
        ({
            let l1 = l.shadow_up(c, a, amount).0;
            &&& l1.shadow_down_safe(c, a, amount)
            &&& l1.shadow_down(c, a, amount).1 is Ok
            &&& l1.shadow_down(c, a, amount).0.space(c@) matches Some(sp) && sp.allocs_sum == l.space(c@)->Some_0.allocs_sum
            &&& forall|x: Seq<u8>| #[trigger] l1.shadow_down(c, a, amount).0.alloc_value(c@, x) == l.alloc_value(c@, x)
        }),
{
    let l1 = l.shadow_up(c, a, amount).0;
    let l2 = l1.shadow_down(c, a, amount).0;
    let v = l.alloc_value(c@, a@)->Some_0;
    let sp = l.space(c@)->Some_0;
    assert(l1.alloc_value(c@, a@) == Some((v + amount * 100_000_000) as u128));
    assert(l1.space(c@)->Some_0.allocs_sum == sp.allocs_sum + amount);
    assert forall|x: Seq<u8>| #[trigger] l2.alloc_value(c@, x) == l.alloc_value(c@, x) by {
        if x != a@ {
            assert(l1.alloc_value(c@, x) == l.alloc_value(c@, x));
        }
    }
}

/// Registering an account that is not registered succeeds, and registering it again fails.
pub proof fn law_register_account_once(h: AccountCoinHolderView, k: Key)
    requires
        !h.accounts.dom().contains(k@),
        !h.delta.is_new(k@),
    ensures
        h.register_account(k) is Ok,
        h.register_account(k)->Ok_0.register_account(k) is Err,
{
    let h1 = h.register_account(k)->Ok_0;
    assert(key_views(h1.delta.new_accounts_to_register) =~= key_views(h.delta.new_accounts_to_register).push(k@));
    assert(key_views(h1.delta.new_accounts_to_register)[h.delta.new_accounts_to_register.len() as int] == k@);
}

/// Increasing an account's balance and then decreasing it by the same amount succeeds and leaves
/// every balance as it was.
pub proof fn law_balance_up_then_down(h: AccountCoinHolderView, k: Key, amount: u64)
    requires
        h.balance(k@) is Some,
        h.balance(k@)->Some_0 + amount <= u64::MAX,
    ensures
        h.balance_up(k, amount) is Ok,
        h.balance_up(k, amount)->Ok_0.balance_down(k, amount) is Ok,
        forall|x: Seq<u8>| #[trigger] h.balance_up(k, amount)->Ok_0.balance_down(k, amount)->Ok_0.balance(x) == h.balance(x),
{
}

} // verus!
