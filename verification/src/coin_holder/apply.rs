use super::bodies::{CHAccountBody, CHAccountBodyView, CHContractBody, CHContractBodyView, ShadowSpace, ShadowSpaceView};
use super::deltas::spaces_view;
use crate::fold::{
    extended_by_prefix, lemma_fold_whole, lemma_ops_fold_prefix, lemma_ops_fold_step, lemma_prefix_extends,
    lemma_step_fold_err, lemma_step_fold_step, ops_fold, step_fold, fold_stops_at,
};
use crate::keymap::{Key, KeyMap};
use vstd::prelude::*;

verus! {

/// A write to the stored coin holder state, produced when changes are applied.
#[derive(Debug)]
pub enum CHDiskOp {
    /// Register an account in the root tree of the account store, with a zeroed value.
    RegisterAccount(Key),
    /// Store an account's balance in its tree.
    PutAccountBalance(Key, u64),
    /// Store an account's shadow allocs sum in its tree.
    PutAccountShadowAllocsSum(Key, u128),
    /// Store a contract's balance in its tree.
    PutContractBalance(Key, u64),
    /// Store a contract's shadow allocs sum in its tree.
    PutContractAllocsSum(Key, u64),
    /// Store an account's allocation in a contract's tree.
    PutShadowAlloc(Key, Key, u128),
    /// Delete an account's allocation from a contract's tree.
    RemoveShadowAlloc(Key, Key),
}

/// The views of a map of account bodies.
pub open spec fn accounts_view(m: Map<Seq<u8>, CHAccountBody>) -> Map<Seq<u8>, CHAccountBodyView> {
    m.map_values(|b: CHAccountBody| b@)
}

/// The views of a map of contract bodies.
pub open spec fn contracts_view(m: Map<Seq<u8>, CHContractBody>) -> Map<Seq<u8>, CHContractBodyView> {
    m.map_values(|b: CHContractBody| b@)
}

/// The write that registers one account.
pub open spec fn register_account_op() -> spec_fn(Key) -> Seq<CHDiskOp> {
    |k: Key| seq![CHDiskOp::RegisterAccount(k)]
}

/// The writes that register one contract: a zero balance and a zero allocs sum.
pub open spec fn register_contract_op() -> spec_fn(Key) -> Seq<CHDiskOp> {
    |c: Key| seq![CHDiskOp::PutContractBalance(c, 0), CHDiskOp::PutContractAllocsSum(c, 0)]
}

/// The write of one account balance.
pub open spec fn account_balance_op(m: Map<Seq<u8>, u64>) -> spec_fn(Key) -> Seq<CHDiskOp> {
    |k: Key| seq![CHDiskOp::PutAccountBalance(k, m[k@])]
}

/// The write of one account shadow allocs sum.
pub open spec fn account_sum_op(m: Map<Seq<u8>, u128>) -> spec_fn(Key) -> Seq<CHDiskOp> {
    |k: Key| seq![CHDiskOp::PutAccountShadowAllocsSum(k, m[k@])]
}

/// The write of one contract balance.
pub open spec fn contract_balance_op(m: Map<Seq<u8>, u64>) -> spec_fn(Key) -> Seq<CHDiskOp> {
    |c: Key| seq![CHDiskOp::PutContractBalance(c, m[c@])]
}

/// The write of one allocation of a contract's shadow space.
pub open spec fn alloc_op(c: Key, m: Map<Seq<u8>, u128>) -> spec_fn(Key) -> Seq<CHDiskOp> {
    |a: Key| seq![CHDiskOp::PutShadowAlloc(c, a, m[a@])]
}

/// The writes of one shadow space: each allocation in order, then the allocs sum.
pub open spec fn space_op(spaces: Map<Seq<u8>, ShadowSpace>) -> spec_fn(Key) -> Seq<CHDiskOp> {
    |c: Key| ops_fold(spaces[c@].alloc_keys(), alloc_op(c, spaces[c@]@.allocs)).push(
        CHDiskOp::PutContractAllocsSum(c, spaces[c@]@.allocs_sum))
}

/// The deletion of one deallocated account of a contract.
pub open spec fn remove_op(c: Key) -> spec_fn(Key) -> Seq<CHDiskOp> {
    |a: Key| seq![CHDiskOp::RemoveShadowAlloc(c, a)]
}

/// The deletions of one contract's deallocated accounts.
pub open spec fn dealloc_op(lists: Map<Seq<u8>, Vec<Key>>) -> spec_fn(Key) -> Seq<CHDiskOp> {
    |c: Key| ops_fold(lists[c@]@, remove_op(c))
}

/// Registers one account with a zero balance and a zero shadow allocs sum.
pub open spec fn register_account_step() -> spec_fn(Map<Seq<u8>, CHAccountBodyView>, Key) -> Result<Map<Seq<u8>, CHAccountBodyView>, Key> {
    |a: Map<Seq<u8>, CHAccountBodyView>, k: Key| Ok(a.insert(k@, CHAccountBodyView { balance: 0, shadow_allocs_sum: 0 }))
}

/// Stores one account balance; fails when the account has no permanent body.
pub open spec fn account_balance_step(m: Map<Seq<u8>, u64>) -> spec_fn(Map<Seq<u8>, CHAccountBodyView>, Key) -> Result<Map<Seq<u8>, CHAccountBodyView>, Key> {
    |a: Map<Seq<u8>, CHAccountBodyView>, k: Key|
        if a.dom().contains(k@) {
            Ok(a.insert(k@, CHAccountBodyView { balance: m[k@], ..a[k@] }))
        } else {
            Err(k)
        }
}

/// Stores one account shadow allocs sum; fails when the account has no permanent body.
pub open spec fn account_sum_step(m: Map<Seq<u8>, u128>) -> spec_fn(Map<Seq<u8>, CHAccountBodyView>, Key) -> Result<Map<Seq<u8>, CHAccountBodyView>, Key> {
    |a: Map<Seq<u8>, CHAccountBodyView>, k: Key|
        if a.dom().contains(k@) {
            Ok(a.insert(k@, CHAccountBodyView { shadow_allocs_sum: m[k@], ..a[k@] }))
        } else {
            Err(k)
        }
}

/// Registers one contract with a zero balance and an empty shadow space.
pub open spec fn register_contract_step() -> spec_fn(Map<Seq<u8>, CHContractBodyView>, Key) -> Result<Map<Seq<u8>, CHContractBodyView>, Key> {
    |cs: Map<Seq<u8>, CHContractBodyView>, c: Key| Ok(cs.insert(c@, CHContractBodyView { balance: 0, shadow_space: ShadowSpaceView::empty() }))
}

/// Stores one contract balance; fails when the contract has no permanent body.
pub open spec fn contract_balance_step(m: Map<Seq<u8>, u64>) -> spec_fn(Map<Seq<u8>, CHContractBodyView>, Key) -> Result<Map<Seq<u8>, CHContractBodyView>, Key> {
    |cs: Map<Seq<u8>, CHContractBodyView>, c: Key|
        if cs.dom().contains(c@) {
            Ok(cs.insert(c@, CHContractBodyView { balance: m[c@], ..cs[c@] }))
        } else {
            Err(c)
        }
}

/// Stores one shadow space; fails when the contract has no permanent body.
pub open spec fn space_step(spaces: Map<Seq<u8>, ShadowSpaceView>) -> spec_fn(Map<Seq<u8>, CHContractBodyView>, Key) -> Result<Map<Seq<u8>, CHContractBodyView>, Key> {
    |cs: Map<Seq<u8>, CHContractBodyView>, c: Key|
        if cs.dom().contains(c@) {
            Ok(cs.insert(c@, CHContractBodyView { shadow_space: spaces[c@], ..cs[c@] }))
        } else {
            Err(c)
        }
}

/// Allocations with the given accounts removed, one after the other; an account that holds no
/// allocation there is passed over.
pub open spec fn accounts_removed(allocs: Map<Seq<u8>, u128>, accounts: Seq<Key>) -> Map<Seq<u8>, u128>
    decreases accounts.len(),
{
    if accounts.len() == 0 {
        allocs
    } else {
        accounts_removed(allocs, accounts.drop_last()).remove(accounts.last()@)
    }
}

/// Removes one contract's deallocated accounts from its permanent shadow space; fails on a contract
/// with no permanent body.
pub open spec fn dealloc_step(lists: Map<Seq<u8>, Seq<Key>>) -> spec_fn(Map<Seq<u8>, CHContractBodyView>, Key) -> Result<Map<Seq<u8>, CHContractBodyView>, Key> {
    |cs: Map<Seq<u8>, CHContractBodyView>, c: Key|
        if !cs.dom().contains(c@) {
            Err(c)
        } else {
            Ok(cs.insert(
                c@,
                CHContractBodyView {
                    shadow_space: ShadowSpaceView { allocs: accounts_removed(cs[c@].shadow_space.allocs, lists[c@]), ..cs[c@].shadow_space },
                    ..cs[c@]
                },
            ))
        }
}

/// Registers new accounts in memory and produces their writes.
pub fn register_accounts(accounts: &mut KeyMap<CHAccountBody>, new: &Vec<Key>, ops: &mut Vec<CHDiskOp>)
    ensures
        Ok::<_, Key>(accounts_view(final(accounts)@)) == step_fold(accounts_view(old(accounts)@), new@, register_account_step()),
        final(ops)@ == old(ops)@ + ops_fold(new@, register_account_op()),
{
    let ghost a0 = accounts_view(accounts@);
    let ghost ops0 = ops@;
    let n = new.len();
    let mut i: usize = 0;
    while i < n
        invariant
            0 <= i <= n,
            n == new@.len(),
            a0 == accounts_view(old(accounts)@),
            ops0 == old(ops)@,
            step_fold(a0, new@.subrange(0, i as int), register_account_step()) == Ok::<_, Key>(accounts_view(accounts@)),
            ops@ == ops0 + ops_fold(new@.subrange(0, i as int), register_account_op()),
        decreases n - i,
    {
        let k = new[i];
        proof {
            lemma_step_fold_step(a0, new@, i as int, register_account_step());
            lemma_ops_fold_step(new@, i as int, register_account_op());
        }
        ops.push(CHDiskOp::RegisterAccount(k));
        let body = CHAccountBody::new(0, 0);
        let ghost before = accounts@;
        accounts.insert(k, body);
        proof {
            assert(accounts_view(accounts@) =~= accounts_view(before).insert(k@, body@));
            assert(ops@ =~= ops0 + ops_fold(new@.subrange(0, i + 1), register_account_op()));
        }
        i = i + 1;
    }
    proof {
        lemma_fold_whole(new@);
    }
}

/// Stores ephemeral account balances in memory and produces their writes; fails on the first
/// account with no permanent body, before its write.
pub fn store_account_balances(accounts: &mut KeyMap<CHAccountBody>, upd: &KeyMap<u64>, ops: &mut Vec<CHDiskOp>) -> (r: Result<(), Key>)
    ensures
        match step_fold(accounts_view(old(accounts)@), upd.raw_keys(), account_balance_step(upd@)) {
            Ok(a) => r is Ok && accounts_view(final(accounts)@) == a
                && final(ops)@ == old(ops)@ + ops_fold(upd.raw_keys(), account_balance_op(upd@)),
            Err(k) => r == Err::<(), Key>(k)
                && extended_by_prefix(old(ops)@, final(ops)@, ops_fold(upd.raw_keys(), account_balance_op(upd@)))
                && exists|i: int| fold_stops_at(accounts_view(old(accounts)@), upd.raw_keys(), account_balance_step(upd@), i, accounts_view(final(accounts)@))
                    && final(ops)@ == old(ops)@ + ops_fold(upd.raw_keys().subrange(0, i), account_balance_op(upd@)),
        },
{
    let ghost keys = upd.raw_keys();
    let ghost a0 = accounts_view(accounts@);
    let ghost ops0 = ops@;
    let n = upd.len();
    let mut i: usize = 0;
    while i < n
        invariant
            0 <= i <= n,
            n == upd.key_seq().len(),
            keys == upd.raw_keys(),
            a0 == accounts_view(old(accounts)@),
            ops0 == old(ops)@,
            step_fold(a0, keys.subrange(0, i as int), account_balance_step(upd@)) == Ok::<_, Key>(accounts_view(accounts@)),
            ops@ == ops0 + ops_fold(keys.subrange(0, i as int), account_balance_op(upd@)),
        decreases n - i,
    {
        let k = upd.key_at(i);
        let b = *upd.value_at(i);
        proof {
            lemma_step_fold_step(a0, keys, i as int, account_balance_step(upd@));
            lemma_ops_fold_step(keys, i as int, account_balance_op(upd@));
        }
        match accounts.get(&k) {
            None => {
                proof {
                    lemma_step_fold_err(a0, keys, i + 1, account_balance_step(upd@));
                    lemma_ops_fold_prefix(keys, i as int, account_balance_op(upd@));
                    lemma_prefix_extends(ops0, ops_fold(keys.subrange(0, i as int), account_balance_op(upd@)), ops_fold(keys, account_balance_op(upd@)));
                    assert(fold_stops_at(a0, keys, account_balance_step(upd@), i as int, accounts_view(accounts@)));
                }
                return Err(k);
            },
            Some(body) => {
                let mut nb = *body;
                nb.update_balance(b);
                let ghost before = accounts@;
                accounts.insert(k, nb);
                proof {
                    assert(accounts_view(accounts@) =~= accounts_view(before).insert(k@, nb@));
                }
            },
        }
        ops.push(CHDiskOp::PutAccountBalance(k, b));
        proof {
            assert(ops@ =~= ops0 + ops_fold(keys.subrange(0, i + 1), account_balance_op(upd@)));
        }
        i = i + 1;
    }
    proof {
        lemma_fold_whole(keys);
    }
    Ok(())
}

/// Stores ephemeral account shadow allocs sums in memory and produces their writes; fails on the
/// first account with no permanent body, before its write.
pub fn store_account_sums(accounts: &mut KeyMap<CHAccountBody>, upd: &KeyMap<u128>, ops: &mut Vec<CHDiskOp>) -> (r: Result<(), Key>)
    ensures
        match step_fold(accounts_view(old(accounts)@), upd.raw_keys(), account_sum_step(upd@)) {
            Ok(a) => r is Ok && accounts_view(final(accounts)@) == a
                && final(ops)@ == old(ops)@ + ops_fold(upd.raw_keys(), account_sum_op(upd@)),
            Err(k) => r == Err::<(), Key>(k)
                && extended_by_prefix(old(ops)@, final(ops)@, ops_fold(upd.raw_keys(), account_sum_op(upd@)))
                && exists|i: int| fold_stops_at(accounts_view(old(accounts)@), upd.raw_keys(), account_sum_step(upd@), i, accounts_view(final(accounts)@))
                    && final(ops)@ == old(ops)@ + ops_fold(upd.raw_keys().subrange(0, i), account_sum_op(upd@)),
        },
{
    let ghost keys = upd.raw_keys();
    let ghost a0 = accounts_view(accounts@);
    let ghost ops0 = ops@;
    let n = upd.len();
    let mut i: usize = 0;
    while i < n
        invariant
            0 <= i <= n,
            n == upd.key_seq().len(),
            keys == upd.raw_keys(),
            a0 == accounts_view(old(accounts)@),
            ops0 == old(ops)@,
            step_fold(a0, keys.subrange(0, i as int), account_sum_step(upd@)) == Ok::<_, Key>(accounts_view(accounts@)),
            ops@ == ops0 + ops_fold(keys.subrange(0, i as int), account_sum_op(upd@)),
        decreases n - i,
    {
        let k = upd.key_at(i);
        let v = *upd.value_at(i);
        proof {
            lemma_step_fold_step(a0, keys, i as int, account_sum_step(upd@));
            lemma_ops_fold_step(keys, i as int, account_sum_op(upd@));
        }
        match accounts.get(&k) {
            None => {
                proof {
                    lemma_step_fold_err(a0, keys, i + 1, account_sum_step(upd@));
                    lemma_ops_fold_prefix(keys, i as int, account_sum_op(upd@));
                    lemma_prefix_extends(ops0, ops_fold(keys.subrange(0, i as int), account_sum_op(upd@)), ops_fold(keys, account_sum_op(upd@)));
                    assert(fold_stops_at(a0, keys, account_sum_step(upd@), i as int, accounts_view(accounts@)));
                }
                return Err(k);
            },
            Some(body) => {
                let mut nb = *body;
                nb.update_shadow_allocs_sum(v);
                let ghost before = accounts@;
                accounts.insert(k, nb);
                proof {
                    assert(accounts_view(accounts@) =~= accounts_view(before).insert(k@, nb@));
                }
            },
        }
        ops.push(CHDiskOp::PutAccountShadowAllocsSum(k, v));
        proof {
            assert(ops@ =~= ops0 + ops_fold(keys.subrange(0, i + 1), account_sum_op(upd@)));
        }
        i = i + 1;
    }
    proof {
        lemma_fold_whole(keys);
    }
    Ok(())
}

/// Registers new contracts in memory and produces their writes.
pub fn register_contracts(contracts: &mut KeyMap<CHContractBody>, new: &Vec<Key>, ops: &mut Vec<CHDiskOp>)
    ensures
        Ok::<_, Key>(contracts_view(final(contracts)@)) == step_fold(contracts_view(old(contracts)@), new@, register_contract_step()),
        final(ops)@ == old(ops)@ + ops_fold(new@, register_contract_op()),
{
    let ghost c0 = contracts_view(contracts@);
    let ghost ops0 = ops@;
    let n = new.len();
    let mut i: usize = 0;
    while i < n
        invariant
            0 <= i <= n,
            n == new@.len(),
            c0 == contracts_view(old(contracts)@),
            ops0 == old(ops)@,
            step_fold(c0, new@.subrange(0, i as int), register_contract_step()) == Ok::<_, Key>(contracts_view(contracts@)),
            ops@ == ops0 + ops_fold(new@.subrange(0, i as int), register_contract_op()),
        decreases n - i,
    {
        let c = new[i];
        proof {
            lemma_step_fold_step(c0, new@, i as int, register_contract_step());
            lemma_ops_fold_step(new@, i as int, register_contract_op());
        }
        let body = CHContractBody::new(0, ShadowSpace::fresh_new());
        let ghost before = contracts@;
        let ghost bv = body@;
        contracts.insert(c, body);
        ops.push(CHDiskOp::PutContractBalance(c, 0));
        ops.push(CHDiskOp::PutContractAllocsSum(c, 0));
        proof {
            assert(contracts_view(contracts@) =~= contracts_view(before).insert(c@, bv));
            assert(ops@ =~= ops0 + ops_fold(new@.subrange(0, i + 1), register_contract_op()));
        }
        i = i + 1;
    }
    proof {
        lemma_fold_whole(new@);
    }
}

/// Stores ephemeral contract balances in memory and produces their writes; fails on the first
/// contract with no permanent body, before its write.
pub fn store_contract_balances(contracts: &mut KeyMap<CHContractBody>, upd: &KeyMap<u64>, ops: &mut Vec<CHDiskOp>) -> (r: Result<(), Key>)
    ensures
        match step_fold(contracts_view(old(contracts)@), upd.raw_keys(), contract_balance_step(upd@)) {
            Ok(c) => r is Ok && contracts_view(final(contracts)@) == c
                && final(ops)@ == old(ops)@ + ops_fold(upd.raw_keys(), contract_balance_op(upd@)),
            Err(k) => r == Err::<(), Key>(k)
                && extended_by_prefix(old(ops)@, final(ops)@, ops_fold(upd.raw_keys(), contract_balance_op(upd@)))
                && exists|i: int| fold_stops_at(contracts_view(old(contracts)@), upd.raw_keys(), contract_balance_step(upd@), i, contracts_view(final(contracts)@))
                    && final(ops)@ == old(ops)@ + ops_fold(upd.raw_keys().subrange(0, i), contract_balance_op(upd@)),
        },
{
    let ghost keys = upd.raw_keys();
    let ghost c0 = contracts_view(contracts@);
    let ghost ops0 = ops@;
    let n = upd.len();
    let mut i: usize = 0;
    while i < n
        invariant
            0 <= i <= n,
            n == upd.key_seq().len(),
            keys == upd.raw_keys(),
            c0 == contracts_view(old(contracts)@),
            ops0 == old(ops)@,
            step_fold(c0, keys.subrange(0, i as int), contract_balance_step(upd@)) == Ok::<_, Key>(contracts_view(contracts@)),
            ops@ == ops0 + ops_fold(keys.subrange(0, i as int), contract_balance_op(upd@)),
        decreases n - i,
    {
        let c = upd.key_at(i);
        let b = *upd.value_at(i);
        proof {
            lemma_step_fold_step(c0, keys, i as int, contract_balance_step(upd@));
            lemma_ops_fold_step(keys, i as int, contract_balance_op(upd@));
        }
        let ghost before = contracts@;
        let mut body = CHContractBody::new(0, ShadowSpace::fresh_new());
        if !contracts.swap_value(&c, &mut body) {
            proof {
                lemma_step_fold_err(c0, keys, i + 1, contract_balance_step(upd@));
                lemma_ops_fold_prefix(keys, i as int, contract_balance_op(upd@));
                lemma_prefix_extends(ops0, ops_fold(keys.subrange(0, i as int), contract_balance_op(upd@)), ops_fold(keys, contract_balance_op(upd@)));
                assert(fold_stops_at(c0, keys, contract_balance_step(upd@), i as int, contracts_view(contracts@)));
            }
            return Err(c);
        }
        body.update_balance(b);
        let ghost bv = body@;
        contracts.swap_value(&c, &mut body);
        ops.push(CHDiskOp::PutContractBalance(c, b));
        proof {
            assert(contracts_view(contracts@) =~= contracts_view(before).insert(c@, bv));
            assert(ops@ =~= ops0 + ops_fold(keys.subrange(0, i + 1), contract_balance_op(upd@)));
        }
        i = i + 1;
    }
    proof {
        lemma_fold_whole(keys);
    }
    Ok(())
}

/// Produces the writes of one shadow space's allocations, in order.
fn push_alloc_ops(c: Key, allocs: &KeyMap<u128>, ops: &mut Vec<CHDiskOp>)
    ensures
        final(ops)@ == old(ops)@ + ops_fold(allocs.raw_keys(), alloc_op(c, allocs@)),
{
    let ghost keys = allocs.raw_keys();
    let ghost ops0 = ops@;
    let n = allocs.len();
    let mut i: usize = 0;
    while i < n
        invariant
            0 <= i <= n,
            n == allocs.key_seq().len(),
            keys == allocs.raw_keys(),
            ops0 == old(ops)@,
            ops@ == ops0 + ops_fold(keys.subrange(0, i as int), alloc_op(c, allocs@)),
        decreases n - i,
    {
        let a = allocs.key_at(i);
        let v = *allocs.value_at(i);
        proof {
            lemma_ops_fold_step(keys, i as int, alloc_op(c, allocs@));
        }
        ops.push(CHDiskOp::PutShadowAlloc(c, a, v));
        proof {
            assert(ops@ =~= ops0 + ops_fold(keys.subrange(0, i + 1), alloc_op(c, allocs@)));
        }
        i = i + 1;
    }
    proof {
        lemma_fold_whole(keys);
    }
}

/// Stores ephemeral shadow spaces in memory and produces their writes; fails on the first contract
/// with no permanent body, before its writes.
pub fn store_spaces(contracts: &mut KeyMap<CHContractBody>, spaces: &KeyMap<ShadowSpace>, ops: &mut Vec<CHDiskOp>) -> (r: Result<(), Key>)
    ensures
        match step_fold(contracts_view(old(contracts)@), spaces.raw_keys(), space_step(spaces_view(spaces@))) {
            Ok(c) => r is Ok && contracts_view(final(contracts)@) == c
                && final(ops)@ == old(ops)@ + ops_fold(spaces.raw_keys(), space_op(spaces@)),
            Err(k) => r == Err::<(), Key>(k)
                && extended_by_prefix(old(ops)@, final(ops)@, ops_fold(spaces.raw_keys(), space_op(spaces@)))
                && exists|i: int| fold_stops_at(contracts_view(old(contracts)@), spaces.raw_keys(), space_step(spaces_view(spaces@)), i, contracts_view(final(contracts)@))
                    && final(ops)@ == old(ops)@ + ops_fold(spaces.raw_keys().subrange(0, i), space_op(spaces@)),
        },
{
    let ghost keys = spaces.raw_keys();
    let ghost c0 = contracts_view(contracts@);
    let ghost ops0 = ops@;
    let ghost sv = spaces_view(spaces@);
    let n = spaces.len();
    let mut i: usize = 0;
    while i < n
        invariant
            0 <= i <= n,
            n == spaces.key_seq().len(),
            keys == spaces.raw_keys(),
            sv == spaces_view(spaces@),
            c0 == contracts_view(old(contracts)@),
            ops0 == old(ops)@,
            step_fold(c0, keys.subrange(0, i as int), space_step(sv)) == Ok::<_, Key>(contracts_view(contracts@)),
            ops@ == ops0 + ops_fold(keys.subrange(0, i as int), space_op(spaces@)),
        decreases n - i,
    {
        let c = spaces.key_at(i);
        let sp = spaces.value_at(i);
        proof {
            lemma_step_fold_step(c0, keys, i as int, space_step(sv));
            lemma_ops_fold_step(keys, i as int, space_op(spaces@));
        }
        let ghost before = contracts@;
        let mut body = CHContractBody::new(0, ShadowSpace::fresh_new());
        if !contracts.swap_value(&c, &mut body) {
            proof {
                lemma_step_fold_err(c0, keys, i + 1, space_step(sv));
                lemma_ops_fold_prefix(keys, i as int, space_op(spaces@));
                lemma_prefix_extends(ops0, ops_fold(keys.subrange(0, i as int), space_op(spaces@)), ops_fold(keys, space_op(spaces@)));
                assert(fold_stops_at(c0, keys, space_step(sv), i as int, contracts_view(contracts@)));
            }
            return Err(c);
        }
        body.update_shadow_space(sp.duplicate());
        let ghost bv = body@;
        contracts.swap_value(&c, &mut body);
        push_alloc_ops(c, sp.allocs(), ops);
        ops.push(CHDiskOp::PutContractAllocsSum(c, sp.allocs_sum()));
        proof {
            assert(contracts_view(contracts@) =~= contracts_view(before).insert(c@, bv));
            assert(ops@ =~= ops0 + ops_fold(keys.subrange(0, i + 1), space_op(spaces@)));
        }
        i = i + 1;
    }
    proof {
        lemma_fold_whole(keys);
    }
    Ok(())
}

/// Produces the deletions of one contract's deallocated accounts.
fn push_remove_ops(c: Key, accounts: &Vec<Key>, ops: &mut Vec<CHDiskOp>)
    ensures
        final(ops)@ == old(ops)@ + ops_fold(accounts@, remove_op(c)),
{
    let ghost ops0 = ops@;
    let n = accounts.len();
    let mut i: usize = 0;
    while i < n
        invariant
            0 <= i <= n,
            n == accounts@.len(),
            ops0 == old(ops)@,
            ops@ == ops0 + ops_fold(accounts@.subrange(0, i as int), remove_op(c)),
        decreases n - i,
    {
        let a = accounts[i];
        proof {
            lemma_ops_fold_step(accounts@, i as int, remove_op(c));
        }
        ops.push(CHDiskOp::RemoveShadowAlloc(c, a));
        proof {
            assert(ops@ =~= ops0 + ops_fold(accounts@.subrange(0, i + 1), remove_op(c)));
        }
        i = i + 1;
    }
    proof {
        lemma_fold_whole(accounts@);
    }
}

/// Removes accounts from a shadow space one by one, passing over those it does not hold.
fn remove_accounts(sp: &mut ShadowSpace, accounts: &Vec<Key>)
    ensures
        final(sp)@ == (ShadowSpaceView { allocs: accounts_removed(old(sp)@.allocs, accounts@), ..old(sp)@ }),
{
    let ghost sv0 = sp@;
    let n = accounts.len();
    let mut i: usize = 0;
    while i < n
        invariant
            0 <= i <= n,
            n == accounts@.len(),
            sv0 == old(sp)@,
            sp@ == (ShadowSpaceView { allocs: accounts_removed(sv0.allocs, accounts@.subrange(0, i as int)), ..sv0 }),
        decreases n - i,
    {
        let a = accounts[i];
        proof {
            assert(accounts@.subrange(0, i + 1).drop_last() =~= accounts@.subrange(0, i as int));
            assert(accounts@.subrange(0, i + 1).last() == a);
        }
        sp.remove_alloc(a);
        i = i + 1;
    }
    proof {
        lemma_fold_whole(accounts@);
    }
}

/// Removes deallocated accounts from the permanent shadow spaces, contract by contract, and produces
/// their deletions once a contract's accounts are removed; fails on the first contract with no
/// permanent body.
pub fn store_deallocs(contracts: &mut KeyMap<CHContractBody>, lists: &KeyMap<Vec<Key>>, ops: &mut Vec<CHDiskOp>) -> (r: Result<(), Key>)
    ensures
        match step_fold(contracts_view(old(contracts)@), lists.raw_keys(), dealloc_step(super::deltas::lists_view(lists@))) {
            Ok(c) => r is Ok && contracts_view(final(contracts)@) == c
                && final(ops)@ == old(ops)@ + ops_fold(lists.raw_keys(), dealloc_op(lists@)),
            Err(k) => r == Err::<(), Key>(k)
                && extended_by_prefix(old(ops)@, final(ops)@, ops_fold(lists.raw_keys(), dealloc_op(lists@)))
                && exists|i: int| fold_stops_at(contracts_view(old(contracts)@), lists.raw_keys(), dealloc_step(super::deltas::lists_view(lists@)), i, contracts_view(final(contracts)@))
                    && final(ops)@ == old(ops)@ + ops_fold(lists.raw_keys().subrange(0, i), dealloc_op(lists@)),
        },
{
    let ghost keys = lists.raw_keys();
    let ghost c0 = contracts_view(contracts@);
    let ghost ops0 = ops@;
    let ghost lv = super::deltas::lists_view(lists@);
    let n = lists.len();
    let mut i: usize = 0;
    while i < n
        invariant
            0 <= i <= n,
            n == lists.key_seq().len(),
            keys == lists.raw_keys(),
            lv == super::deltas::lists_view(lists@),
            c0 == contracts_view(old(contracts)@),
            ops0 == old(ops)@,
            step_fold(c0, keys.subrange(0, i as int), dealloc_step(lv)) == Ok::<_, Key>(contracts_view(contracts@)),
            ops@ == ops0 + ops_fold(keys.subrange(0, i as int), dealloc_op(lists@)),
        decreases n - i,
    {
        let c = lists.key_at(i);
        let list = lists.value_at(i);
        proof {
            lemma_step_fold_step(c0, keys, i as int, dealloc_step(lv));
            lemma_ops_fold_step(keys, i as int, dealloc_op(lists@));
            lemma_ops_fold_prefix(keys, i as int, dealloc_op(lists@));
        }
        let ghost before = contracts@;
        let mut body = CHContractBody::new(0, ShadowSpace::fresh_new());
        if !contracts.swap_value(&c, &mut body) {
            proof {
                lemma_step_fold_err(c0, keys, i + 1, dealloc_step(lv));
                lemma_prefix_extends(ops0, ops_fold(keys.subrange(0, i as int), dealloc_op(lists@)), ops_fold(keys, dealloc_op(lists@)));
                assert(fold_stops_at(c0, keys, dealloc_step(lv), i as int, contracts_view(contracts@)));
            }
            return Err(c);
        }
        let ghost bv0 = body@;
        remove_accounts(body.shadow_space_mut(), list);
        let ghost bv = body@;
        contracts.swap_value(&c, &mut body);
        proof {
            assert(contracts_view(before)[c@] == bv0);
            assert(contracts_view(contracts@) =~= contracts_view(before).insert(c@, bv));
        }
        push_remove_ops(c, list, ops);
        proof {
            assert(ops@ =~= ops0 + ops_fold(keys.subrange(0, i + 1), dealloc_op(lists@)));
        }
        i = i + 1;
    }
    proof {
        lemma_fold_whole(keys);
    }
    Ok(())
}

} // verus!
