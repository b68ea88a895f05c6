use super::account_body::CMAccountBody;
use super::apply_spec::{
    account_balance_op, account_balance_ops, accounts_removed, alloc_op, alloc_ops, balance_step, balances_stored, contract_balance_op, contract_balance_ops, contract_balance_step, contract_balances_stored, dealloc_op, dealloc_ops, dealloc_step, deallocs_stored, global_sum_op, global_sum_ops, global_sum_step, global_sums_stored, globals_of, lemma_spread_spaces_prefix_some, materialize_space, materialized, new_account_op, new_account_ops, new_contract_op, new_contract_ops, register_account_step, register_contract_step, registered_accounts, registered_contracts, remove_op, remove_ops, space_computable, space_op, space_ops, space_step, spaces_stored, spread_space, spread_spaces, CMDiskOp,
};
use super::contract_body::CMContractBodyView;
use super::shadow_space::ShadowSpaceView;
use super::delta::space_map_view;
use super::contract_body::CMContractBody;
use super::coin_manager::contract_map_view;
use super::shadow_space::ShadowSpace;
use crate::keymap::{Key, KeyMap};
use crate::fold::{fold_stops_at, step_fold, lemma_ops_fold_prefix, lemma_ops_fold_step, lemma_step_fold_err, lemma_step_fold_step, lemma_fold_whole, extended_by_prefix, lemma_prefix_extends};
use vstd::prelude::*;

verus! {


/// Registers new accounts in memory and produces their writes.
pub fn register_new_accounts(accounts: &mut KeyMap<CMAccountBody>, new: &KeyMap<u64>, ops: &mut Vec<CMDiskOp>)
    ensures
        final(accounts)@ == registered_accounts(old(accounts)@, new.raw_keys(), new@),
        final(ops)@ == old(ops)@ + new_account_ops(new.raw_keys(), new@),
{
    let ghost keys = new.raw_keys();
    let ghost acc0 = accounts@;
    let ghost ops0 = ops@;
    let n = new.len();
    let mut i: usize = 0;
    while i < n
        invariant
            0 <= i <= n,
            n == new.key_seq().len(),
            keys == new.raw_keys(),
            step_fold(acc0, keys.subrange(0, i as int), register_account_step(new@)) == Ok::<_, Key>(accounts@),
            ops@ == ops0 + new_account_ops(keys.subrange(0, i as int), new@),
        decreases n - i,
    {
        let k = new.key_at(i);
        let b = *new.value_at(i);
        proof {
            lemma_step_fold_step(acc0, keys, i as int, register_account_step(new@));
            lemma_ops_fold_step(keys, i as int, new_account_op(new@));
        }
        ops.push(CMDiskOp::PutAccountBalance(k, b));
        ops.push(CMDiskOp::PutAccountShadowAllocsSum(k, 0));
        accounts.insert(k, CMAccountBody::new(b, 0));
        proof {
            assert(ops@ =~= ops0 + new_account_ops(keys.subrange(0, i + 1), new@));
        }
        i = i + 1;
    }
    proof {
        lemma_fold_whole(keys);
    }
}

/// Stores ephemeral account balances in memory and produces their writes; fails on the first
/// account that is not registered.
pub fn store_account_balances(accounts: &mut KeyMap<CMAccountBody>, upd: &KeyMap<u64>, ops: &mut Vec<CMDiskOp>) -> (r: Result<(), Key>)
    ensures
        match balances_stored(old(accounts)@, upd.raw_keys(), upd@) {
            Ok(a) => r is Ok && final(accounts)@ == a && final(ops)@ == old(ops)@ + account_balance_ops(upd.raw_keys(), upd@),
            Err(k) => r == Err::<(), Key>(k) && extended_by_prefix(old(ops)@, final(ops)@, account_balance_ops(upd.raw_keys(), upd@))
                && exists|i: int| fold_stops_at(old(accounts)@, upd.raw_keys(), balance_step(upd@), i, final(accounts)@)
                    && final(ops)@ == old(ops)@ + account_balance_ops(upd.raw_keys().subrange(0, i + 1), upd@),
        },
{
    let ghost keys = upd.raw_keys();
    let ghost acc0 = accounts@;
    let ghost ops0 = ops@;
    let n = upd.len();
    let mut i: usize = 0;
    while i < n
        invariant
            0 <= i <= n,
            n == upd.key_seq().len(),
            acc0 == old(accounts)@,
            ops0 == old(ops)@,
            keys == upd.raw_keys(),
            step_fold(acc0, keys.subrange(0, i as int), balance_step(upd@)) == Ok::<_, Key>(accounts@),
            ops@ == ops0 + account_balance_ops(keys.subrange(0, i as int), upd@),
        decreases n - i,
    {
        let k = upd.key_at(i);
        let b = *upd.value_at(i);
        proof {
            lemma_step_fold_step(acc0, keys, i as int, balance_step(upd@));
            lemma_ops_fold_step(keys, i as int, account_balance_op(upd@));
        }
        ops.push(CMDiskOp::PutAccountBalance(k, b));
        proof {
            assert(ops@ =~= ops0 + account_balance_ops(keys.subrange(0, i + 1), upd@));
        }
        match accounts.get(&k) {
            None => {
                proof {
                    assert(!accounts@.dom().contains(k@));
                    assert((balance_step(upd@))(accounts@, k) == Err::<Map<Seq<u8>, CMAccountBody>, Key>(k));
                    assert(step_fold(acc0, keys.subrange(0, i + 1), balance_step(upd@)) == Err::<Map<Seq<u8>, CMAccountBody>, Key>(k));
                    lemma_step_fold_err(acc0, keys, i + 1, balance_step(upd@));
                    lemma_ops_fold_prefix(keys, i + 1, account_balance_op(upd@));
                    lemma_prefix_extends(ops0, account_balance_ops(keys.subrange(0, i + 1), upd@), account_balance_ops(keys, upd@));
                    assert(fold_stops_at(acc0, keys, balance_step(upd@), i as int, accounts@));
                }
                return Err(k);
            },
            Some(body) => {
                let mut nb = *body;
                nb.update_balance(b);
                accounts.insert(k, nb);
            },
        }
        i = i + 1;
    }
    proof {
        lemma_fold_whole(keys);
    }
    Ok(())
}

/// Registers new contracts in memory and produces their writes.
pub fn register_new_contracts(contracts: &mut KeyMap<CMContractBody>, new: &KeyMap<u64>, ops: &mut Vec<CMDiskOp>)
    ensures
        contract_map_view(final(contracts)@) == registered_contracts(contract_map_view(old(contracts)@), new.raw_keys(), new@),
        final(ops)@ == old(ops)@ + new_contract_ops(new.raw_keys(), new@),
{
    let ghost keys = new.raw_keys();
    let ghost c0 = contract_map_view(contracts@);
    let ghost ops0 = ops@;
    let n = new.len();
    let mut i: usize = 0;
    while i < n
        invariant
            0 <= i <= n,
            n == new.key_seq().len(),
            keys == new.raw_keys(),
            c0 == contract_map_view(old(contracts)@),
            ops0 == old(ops)@,
            step_fold(c0, keys.subrange(0, i as int), register_contract_step(new@)) == Ok::<_, Key>(contract_map_view(contracts@)),
            ops@ == ops0 + new_contract_ops(keys.subrange(0, i as int), new@),
        decreases n - i,
    {
        let k = new.key_at(i);
        let b = *new.value_at(i);
        proof {
            lemma_step_fold_step(c0, keys, i as int, register_contract_step(new@));
            lemma_ops_fold_step(keys, i as int, new_contract_op(new@));
        }
        ops.push(CMDiskOp::PutContractBalance(k, b));
        ops.push(CMDiskOp::PutContractAllocsSum(k, 0));
        let body = CMContractBody::new(b, ShadowSpace::fresh_new());
        let ghost before = contracts@;
        let ghost bv = body@;
        contracts.insert(k, body);
        proof {
            assert(contract_map_view(contracts@) =~= contract_map_view(before).insert(k@, bv));
            assert(ops@ =~= ops0 + new_contract_ops(keys.subrange(0, i + 1), new@));
        }
        i = i + 1;
    }
    proof {
        lemma_fold_whole(keys);
    }
}

/// Stores ephemeral contract balances in memory and produces their writes; fails on the first
/// contract that is not registered.
pub fn store_contract_balances(contracts: &mut KeyMap<CMContractBody>, upd: &KeyMap<u64>, ops: &mut Vec<CMDiskOp>) -> (r: Result<(), Key>)
    ensures
        match contract_balances_stored(contract_map_view(old(contracts)@), upd.raw_keys(), upd@) {
            Ok(c) => r is Ok && contract_map_view(final(contracts)@) == c
                && final(ops)@ == old(ops)@ + contract_balance_ops(upd.raw_keys(), upd@),
            Err(k) => r == Err::<(), Key>(k) && extended_by_prefix(old(ops)@, final(ops)@, contract_balance_ops(upd.raw_keys(), upd@))
                && exists|i: int| fold_stops_at(contract_map_view(old(contracts)@), upd.raw_keys(), contract_balance_step(upd@), i, contract_map_view(final(contracts)@))
                    && final(ops)@ == old(ops)@ + contract_balance_ops(upd.raw_keys().subrange(0, i + 1), upd@),
        },
{
    let ghost keys = upd.raw_keys();
    let ghost c0 = contract_map_view(contracts@);
    let ghost ops0 = ops@;
    let n = upd.len();
    let mut i: usize = 0;
    while i < n
        invariant
            0 <= i <= n,
            n == upd.key_seq().len(),
            keys == upd.raw_keys(),
            c0 == contract_map_view(old(contracts)@),
            ops0 == old(ops)@,
            step_fold(c0, keys.subrange(0, i as int), contract_balance_step(upd@)) == Ok::<_, Key>(contract_map_view(contracts@)),
            ops@ == ops0 + contract_balance_ops(keys.subrange(0, i as int), upd@),
        decreases n - i,
    {
        let k = upd.key_at(i);
        let b = *upd.value_at(i);
        proof {
            lemma_step_fold_step(c0, keys, i as int, contract_balance_step(upd@));
            lemma_ops_fold_step(keys, i as int, contract_balance_op(upd@));
        }
        ops.push(CMDiskOp::PutContractBalance(k, b));
        proof {
            assert(ops@ =~= ops0 + contract_balance_ops(keys.subrange(0, i + 1), upd@));
        }
        let ghost before = contracts@;
        let mut body = CMContractBody::new(0, ShadowSpace::fresh_new());
        if !contracts.swap_value(&k, &mut body) {
            proof {
                assert(!contract_map_view(before).dom().contains(k@));
                lemma_step_fold_err(c0, keys, i + 1, contract_balance_step(upd@));
                lemma_ops_fold_prefix(keys, i + 1, contract_balance_op(upd@));
                lemma_prefix_extends(ops0, contract_balance_ops(keys.subrange(0, i + 1), upd@), contract_balance_ops(keys, upd@));
                assert(fold_stops_at(c0, keys, contract_balance_step(upd@), i as int, contract_map_view(contracts@)));
            }
            return Err(k);
        }
        body.update_balance(b);
        let ghost bv = body@;
        contracts.swap_value(&k, &mut body);
        proof {
            assert(contract_map_view(contracts@) =~= contract_map_view(before).insert(k@, bv));
        }
        i = i + 1;
    }
    proof {
        lemma_fold_whole(keys);
    }
    Ok(())
}

/// Stores ephemeral global shadow allocs sums in memory and produces their writes; fails on the
/// first account that is not registered.
pub fn store_global_sums(accounts: &mut KeyMap<CMAccountBody>, upd: &KeyMap<u128>, ops: &mut Vec<CMDiskOp>) -> (r: Result<(), Key>)
    ensures
        match global_sums_stored(old(accounts)@, upd.raw_keys(), upd@) {
            Ok(a) => r is Ok && final(accounts)@ == a && final(ops)@ == old(ops)@ + global_sum_ops(upd.raw_keys(), upd@),
            Err(k) => r == Err::<(), Key>(k) && extended_by_prefix(old(ops)@, final(ops)@, global_sum_ops(upd.raw_keys(), upd@))
                && exists|i: int| fold_stops_at(old(accounts)@, upd.raw_keys(), global_sum_step(upd@), i, final(accounts)@)
                    && final(ops)@ == old(ops)@ + global_sum_ops(upd.raw_keys().subrange(0, i + 1), upd@),
        },
{
    let ghost keys = upd.raw_keys();
    let ghost acc0 = accounts@;
    let ghost ops0 = ops@;
    let n = upd.len();
    let mut i: usize = 0;
    while i < n
        invariant
            0 <= i <= n,
            n == upd.key_seq().len(),
            keys == upd.raw_keys(),
            acc0 == old(accounts)@,
            ops0 == old(ops)@,
            step_fold(acc0, keys.subrange(0, i as int), global_sum_step(upd@)) == Ok::<_, Key>(accounts@),
            ops@ == ops0 + global_sum_ops(keys.subrange(0, i as int), upd@),
        decreases n - i,
    {
        let k = upd.key_at(i);
        let v = *upd.value_at(i);
        proof {
            lemma_step_fold_step(acc0, keys, i as int, global_sum_step(upd@));
            lemma_ops_fold_step(keys, i as int, global_sum_op(upd@));
        }
        ops.push(CMDiskOp::PutAccountShadowAllocsSum(k, v));
        proof {
            assert(ops@ =~= ops0 + global_sum_ops(keys.subrange(0, i + 1), upd@));
        }
        match accounts.get(&k) {
            None => {
                proof {
                    lemma_step_fold_err(acc0, keys, i + 1, global_sum_step(upd@));
                    lemma_ops_fold_prefix(keys, i + 1, global_sum_op(upd@));
                    lemma_prefix_extends(ops0, global_sum_ops(keys.subrange(0, i + 1), upd@), global_sum_ops(keys, upd@));
                    assert(fold_stops_at(acc0, keys, global_sum_step(upd@), i as int, accounts@));
                }
                return Err(k);
            },
            Some(body) => {
                let mut nb = *body;
                nb.update_global_shadow_allocs_sum(v);
                accounts.insert(k, nb);
            },
        }
        i = i + 1;
    }
    proof {
        lemma_fold_whole(keys);
    }
    Ok(())
}

/// Spreads the deferred change of every ephemeral shadow space over its allocations, in space order,
/// updating the ephemeral global shadow allocs sums.
pub fn spread_deferred_changes(spaces: &mut KeyMap<ShadowSpace>, sums: &mut KeyMap<u128>, accounts: &KeyMap<CMAccountBody>)
    requires
        forall|c: Seq<u8>| #[trigger] old(spaces)@.dom().contains(c) ==> space_computable(old(spaces)@[c]@),
        spread_spaces(Some((old(sums)@, old(sums).raw_keys())), old(spaces).raw_keys(), old(spaces)@, globals_of(accounts@)) is Some,
    ensures
        Some((final(sums)@, final(sums).raw_keys())) == spread_spaces(
            Some((old(sums)@, old(sums).raw_keys())),
            old(spaces).raw_keys(),
            old(spaces)@,
            globals_of(accounts@),
        ),
        space_map_view(final(spaces)@) == space_map_view(old(spaces)@).map_values(|sp: ShadowSpaceView| materialized(sp)),
        final(spaces).raw_keys() == old(spaces).raw_keys(),
        forall|c: Seq<u8>| #[trigger] final(spaces)@.dom().contains(c)
            ==> final(spaces)@[c].allocs.raw_keys() == old(spaces)@[c].allocs.raw_keys(),
{
    let ghost keys = spaces.raw_keys();
    let ghost sp0 = spaces@;
    let ghost st0 = Some((sums@, sums.raw_keys()));
    let ghost g = globals_of(accounts@);
    let n = spaces.len();
    let mut i: usize = 0;
    while i < n
        invariant
            0 <= i <= n,
            n == keys.len(),
            keys == old(spaces).raw_keys(),
            sp0 == old(spaces)@,
            st0 == Some((old(sums)@, old(sums).raw_keys())),
            g == globals_of(accounts@),
            crate::keymap::key_views(keys).no_duplicates(),
            forall|k: Seq<u8>| sp0.dom().contains(k) <==> crate::keymap::key_views(keys).contains(k),
            forall|c: Seq<u8>| #[trigger] sp0.dom().contains(c) ==> space_computable(sp0[c]@),
            spread_spaces(st0, keys, sp0, g) is Some,
            spaces.raw_keys() == keys,
            spaces@.dom() == sp0.dom(),
            forall|j: int| 0 <= j < i ==> (#[trigger] spaces@[keys[j]@])@ == materialized(sp0[keys[j]@]@)
                && spaces@[keys[j]@].allocs.raw_keys() == sp0[keys[j]@].allocs.raw_keys(),
            forall|j: int| i <= j < n ==> #[trigger] spaces@[keys[j]@] == sp0[keys[j]@],
            Some((sums@, sums.raw_keys())) == spread_spaces(st0, keys.subrange(0, i as int), sp0, g),
        decreases n - i,
    {
        let c = spaces.key_at(i);
        proof {
            assert(crate::keymap::key_views(keys)[i as int] == keys[i as int]@);
            assert(keys.subrange(0, i + 1).drop_last() =~= keys.subrange(0, i as int));
            assert(keys.subrange(0, i + 1).last() == c);
            lemma_spread_spaces_prefix_some(st0, keys, i + 1, sp0, g);
            assert forall|j: int| 0 <= j < n && j != i implies keys[j]@ != c@ by {
                assert(crate::keymap::key_views(keys)[j] == keys[j]@);
            }
        }
        let mut sp = ShadowSpace::fresh_new();
        spaces.swap_value(&c, &mut sp);
        materialize_space(&mut sp, sums, accounts);
        spaces.swap_value(&c, &mut sp);
        i = i + 1;
    }
    proof {
        lemma_fold_whole(keys);
        assert forall|c: Seq<u8>| #[trigger] spaces@.dom().contains(c) implies
            spaces@[c]@ == materialized(sp0[c]@) && spaces@[c].allocs.raw_keys() == sp0[c].allocs.raw_keys() by {
            assert(crate::keymap::key_views(keys).contains(c));
            let j = choose|j: int| 0 <= j < crate::keymap::key_views(keys).len() && crate::keymap::key_views(keys)[j] == c;
            assert(keys[j]@ == c);
        }
        assert(space_map_view(spaces@) =~= space_map_view(sp0).map_values(|sp: ShadowSpaceView| materialized(sp)));
    }
}

/// Produces the writes of one shadow space's allocations.
fn push_alloc_ops(c: Key, allocs: &KeyMap<u128>, ops: &mut Vec<CMDiskOp>)
    ensures
        final(ops)@ == old(ops)@ + alloc_ops(c, allocs.raw_keys(), allocs@),
{
    let ghost keys = allocs.raw_keys();
    let ghost ops0 = ops@;
    let n = allocs.len();
    let mut i: usize = 0;
    while i < n
        invariant
            0 <= i <= n,
            n == allocs.key_seq().len(),
            keys == allocs.raw_keys(),
            ops0 == old(ops)@,
            ops@ == ops0 + alloc_ops(c, keys.subrange(0, i as int), allocs@),
        decreases n - i,
    {
        let k = allocs.key_at(i);
        let v = *allocs.value_at(i);
        proof {
            lemma_ops_fold_step(keys, i as int, alloc_op(c, allocs@));
        }
        ops.push(CMDiskOp::PutShadowAlloc(c, k, v));
        proof {
            assert(ops@ =~= ops0 + alloc_ops(c, keys.subrange(0, i + 1), allocs@));
        }
        i = i + 1;
    }
    proof {
        lemma_fold_whole(keys);
    }
}

/// Stores ephemeral shadow spaces in memory and produces their writes; fails on the first contract
/// that is not registered.
pub fn store_spaces(contracts: &mut KeyMap<CMContractBody>, spaces: &KeyMap<ShadowSpace>, ops: &mut Vec<CMDiskOp>) -> (r: Result<(), Key>)
    ensures
        match spaces_stored(contract_map_view(old(contracts)@), spaces.raw_keys(), spaces@) {
            Ok(c) => r is Ok && contract_map_view(final(contracts)@) == c
                && final(ops)@ == old(ops)@ + space_ops(spaces.raw_keys(), spaces@),
            Err(k) => r == Err::<(), Key>(k) && extended_by_prefix(old(ops)@, final(ops)@, space_ops(spaces.raw_keys(), spaces@))
                && exists|i: int| fold_stops_at(contract_map_view(old(contracts)@), spaces.raw_keys(), space_step(spaces@), i, contract_map_view(final(contracts)@))
                    && final(ops)@ == old(ops)@ + space_ops(spaces.raw_keys().subrange(0, i + 1), spaces@),
        },
{
    let ghost keys = spaces.raw_keys();
    let ghost c0 = contract_map_view(contracts@);
    let ghost ops0 = ops@;
    let n = spaces.len();
    let mut i: usize = 0;
    while i < n
        invariant
            0 <= i <= n,
            n == spaces.key_seq().len(),
            keys == spaces.raw_keys(),
            c0 == contract_map_view(old(contracts)@),
            ops0 == old(ops)@,
            step_fold(c0, keys.subrange(0, i as int), space_step(spaces@)) == Ok::<_, Key>(contract_map_view(contracts@)),
            ops@ == ops0 + space_ops(keys.subrange(0, i as int), spaces@),
        decreases n - i,
    {
        let c = spaces.key_at(i);
        let sp = spaces.value_at(i);
        proof {
            lemma_step_fold_step(c0, keys, i as int, space_step(spaces@));
            lemma_ops_fold_step(keys, i as int, space_op(spaces@));
        }
        let ghost ops1 = ops@;
        push_alloc_ops(c, &sp.allocs, ops);
        ops.push(CMDiskOp::PutContractAllocsSum(c, sp.allocs_sum));
        proof {
            assert(ops@ =~= ops0 + space_ops(keys.subrange(0, i + 1), spaces@));
        }
        let ghost before = contracts@;
        let mut body = CMContractBody::new(0, ShadowSpace::fresh_new());
        if !contracts.swap_value(&c, &mut body) {
            proof {
                assert(!contract_map_view(before).dom().contains(c@));
                lemma_step_fold_err(c0, keys, i + 1, space_step(spaces@));
                lemma_ops_fold_prefix(keys, i + 1, space_op(spaces@));
                lemma_prefix_extends(ops0, space_ops(keys.subrange(0, i + 1), spaces@), space_ops(keys, spaces@));
                assert(fold_stops_at(c0, keys, space_step(spaces@), i as int, contract_map_view(contracts@)));
            }
            return Err(c);
        }
        body.update_shadow_space(sp.duplicate());
        let ghost bv = body@;
        contracts.swap_value(&c, &mut body);
        proof {
            assert(contract_map_view(contracts@) =~= contract_map_view(before).insert(c@, bv));
        }
        i = i + 1;
    }
    proof {
        lemma_fold_whole(keys);
    }
    Ok(())
}

/// Produces the deletions of one contract's deallocated accounts.
fn push_remove_ops(c: Key, accounts: &Vec<Key>, ops: &mut Vec<CMDiskOp>)
    ensures
        final(ops)@ == old(ops)@ + remove_ops(c, accounts@),
{
    let ghost ops0 = ops@;
    let n = accounts.len();
    let mut i: usize = 0;
    while i < n
        invariant
            0 <= i <= n,
            n == accounts@.len(),
            ops0 == old(ops)@,
            ops@ == ops0 + remove_ops(c, accounts@.subrange(0, i as int)),
        decreases n - i,
    {
        let a = accounts[i];
        proof {
            lemma_ops_fold_step(accounts@, i as int, remove_op(c));
        }
        ops.push(CMDiskOp::RemoveShadowAlloc(c, a));
        proof {
            assert(ops@ =~= ops0 + remove_ops(c, accounts@.subrange(0, i + 1)));
        }
        i = i + 1;
    }
    proof {
        lemma_fold_whole(accounts@);
    }
}

/// Removes accounts from a shadow space one by one, passing over those it does not hold.
fn remove_accounts(sp: &mut ShadowSpace, accounts: &Vec<Key>)
    ensures
        final(sp)@ == (ShadowSpaceView { allocs: accounts_removed(old(sp)@.allocs, accounts@), ..old(sp)@ }),
{
    let ghost sv0 = sp@;
    let n = accounts.len();
    let mut i: usize = 0;
    while i < n
        invariant
            0 <= i <= n,
            n == accounts@.len(),
            sv0 == old(sp)@,
            sp@ == (ShadowSpaceView { allocs: accounts_removed(sv0.allocs, accounts@.subrange(0, i as int)), ..sv0 }),
        decreases n - i,
    {
        let a = accounts[i];
        proof {
            assert(accounts@.subrange(0, i + 1).drop_last() =~= accounts@.subrange(0, i as int));
            assert(accounts@.subrange(0, i + 1).last() == a);
        }
        sp.remove_alloc(a);
        i = i + 1;
    }
    proof {
        lemma_fold_whole(accounts@);
    }
}

/// Removes deallocated accounts from the permanent shadow spaces and produces their deletions; fails
/// on the first contract that is not registered.
pub fn store_deallocs(contracts: &mut KeyMap<CMContractBody>, lists: &KeyMap<Vec<Key>>, ops: &mut Vec<CMDiskOp>) -> (r: Result<(), Key>)
    ensures
        match deallocs_stored(contract_map_view(old(contracts)@), lists.raw_keys(), lists@) {
            Ok(c) => r is Ok && contract_map_view(final(contracts)@) == c
                && final(ops)@ == old(ops)@ + dealloc_ops(lists.raw_keys(), lists@),
            Err(k) => r == Err::<(), Key>(k)
                && extended_by_prefix(old(ops)@, final(ops)@, dealloc_ops(lists.raw_keys(), lists@))
                && exists|i: int| fold_stops_at(contract_map_view(old(contracts)@), lists.raw_keys(), dealloc_step(lists@), i, contract_map_view(final(contracts)@))
                    && final(ops)@ == old(ops)@ + dealloc_ops(lists.raw_keys().subrange(0, i + 1), lists@),
        },
{
    let ghost keys = lists.raw_keys();
    let ghost c0 = contract_map_view(contracts@);
    let ghost ops0 = ops@;
    let n = lists.len();
    let mut i: usize = 0;
    while i < n
        invariant
            0 <= i <= n,
            n == lists.key_seq().len(),
            keys == lists.raw_keys(),
            c0 == contract_map_view(old(contracts)@),
            ops0 == old(ops)@,
            step_fold(c0, keys.subrange(0, i as int), dealloc_step(lists@)) == Ok::<_, Key>(contract_map_view(contracts@)),
            ops@ == ops0 + dealloc_ops(keys.subrange(0, i as int), lists@),
        decreases n - i,
    {
        let c = lists.key_at(i);
        let list = lists.value_at(i);
        proof {
            lemma_step_fold_step(c0, keys, i as int, dealloc_step(lists@));
            lemma_ops_fold_step(keys, i as int, dealloc_op(lists@));
        }
        push_remove_ops(c, list, ops);
        proof {
            assert(ops@ =~= ops0 + dealloc_ops(keys.subrange(0, i + 1), lists@));
            lemma_ops_fold_prefix(keys, i + 1, dealloc_op(lists@));
        }
        let ghost before = contracts@;
        let mut body = CMContractBody::new(0, ShadowSpace::fresh_new());
        if !contracts.swap_value(&c, &mut body) {
            proof {
                assert(!contract_map_view(before).dom().contains(c@));
                lemma_step_fold_err(c0, keys, i + 1, dealloc_step(lists@));
                lemma_prefix_extends(ops0, dealloc_ops(keys.subrange(0, i + 1), lists@), dealloc_ops(keys, lists@));
                assert(fold_stops_at(c0, keys, dealloc_step(lists@), i as int, contract_map_view(contracts@)));
            }
            return Err(c);
        }
        let ghost bv0 = body@;
        remove_accounts(&mut body.shadow_space, list);
        let ghost bv = body@;
        contracts.swap_value(&c, &mut body);
        proof {
            assert(contract_map_view(before)[c@] == bv0);
            assert(contract_map_view(contracts@) =~= contract_map_view(before).insert(c@, bv));
        }
        i = i + 1;
    }
    proof {
        lemma_fold_whole(keys);
    }
    Ok(())
}


/// Storing balances leaves the global shadow allocs sums as they were.
pub proof fn lemma_balances_keep_globals(accounts: Map<Seq<u8>, CMAccountBody>, keys: Seq<Key>, m: Map<Seq<u8>, u64>)
    requires
        balances_stored(accounts, keys, m) is Ok,
    ensures
        globals_of(balances_stored(accounts, keys, m)->Ok_0) == globals_of(accounts),
    decreases keys.len(),
{
    if keys.len() > 0 {
        let prev = step_fold(accounts, keys.drop_last(), balance_step(m));
        if prev is Err {
        } else {
            lemma_balances_keep_globals(accounts, keys.drop_last(), m);
            let a = prev->Ok_0;
            let k = keys.last();
            assert(a.dom().contains(k@));
            assert(globals_of(a.insert(k@, CMAccountBody { balance: m[k@], ..a[k@] })) =~= globals_of(a));
        }
    }
}

} // verus!
