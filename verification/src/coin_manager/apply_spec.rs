use super::account_body::CMAccountBody;
use super::delta::{space_map_view, CMDelta, CMDeltaView};
use super::errors::{CMAccountApplyChangesError, CMApplyChangesError, CMContractApplyChangesError};
use super::contract_body::CMContractBodyView;
use super::shadow_space::{deferred_computable, deferred_in_range, deferred_share, deferred_value, ShadowSpace, ShadowSpaceView};
use crate::keymap::{Key, KeyMap};
use crate::fold::{fold_stops_at, ops_fold, step_fold};
use vstd::prelude::*;

verus! {

/// A write to the stored coin state, produced when changes are applied.
#[derive(Debug)]
pub enum CMDiskOp {
    /// Store an account's balance.
    PutAccountBalance(Key, u64),
    /// Store an account's global shadow allocs sum.
    PutAccountShadowAllocsSum(Key, u128),
    /// Store a contract's balance.
    PutContractBalance(Key, u64),
    /// Store a contract's shadow allocs sum.
    PutContractAllocsSum(Key, u64),
    /// Store an account's allocation in a contract's shadow space.
    PutShadowAlloc(Key, Key, u128),
    /// Delete an account's allocation from a contract's shadow space.
    RemoveShadowAlloc(Key, Key),
}


/// The writes that register one new account: its balance and a zero allocs sum.
pub open spec fn new_account_op(m: Map<Seq<u8>, u64>) -> spec_fn(Key) -> Seq<CMDiskOp> {
    |k: Key| seq![CMDiskOp::PutAccountBalance(k, m[k@]), CMDiskOp::PutAccountShadowAllocsSum(k, 0)]
}

/// Writes that register new accounts.
pub open spec fn new_account_ops(keys: Seq<Key>, m: Map<Seq<u8>, u64>) -> Seq<CMDiskOp> {
    ops_fold(keys, new_account_op(m))
}

/// The writes that register one new contract: its balance and a zero allocs sum.
pub open spec fn new_contract_op(m: Map<Seq<u8>, u64>) -> spec_fn(Key) -> Seq<CMDiskOp> {
    |k: Key| seq![CMDiskOp::PutContractBalance(k, m[k@]), CMDiskOp::PutContractAllocsSum(k, 0)]
}

/// Writes that register new contracts.
pub open spec fn new_contract_ops(keys: Seq<Key>, m: Map<Seq<u8>, u64>) -> Seq<CMDiskOp> {
    ops_fold(keys, new_contract_op(m))
}

/// The write of one account balance.
pub open spec fn account_balance_op(m: Map<Seq<u8>, u64>) -> spec_fn(Key) -> Seq<CMDiskOp> {
    |k: Key| seq![CMDiskOp::PutAccountBalance(k, m[k@])]
}

/// Writes of account balances.
pub open spec fn account_balance_ops(keys: Seq<Key>, m: Map<Seq<u8>, u64>) -> Seq<CMDiskOp> {
    ops_fold(keys, account_balance_op(m))
}

/// The write of one contract balance.
pub open spec fn contract_balance_op(m: Map<Seq<u8>, u64>) -> spec_fn(Key) -> Seq<CMDiskOp> {
    |k: Key| seq![CMDiskOp::PutContractBalance(k, m[k@])]
}

/// Writes of contract balances.
pub open spec fn contract_balance_ops(keys: Seq<Key>, m: Map<Seq<u8>, u64>) -> Seq<CMDiskOp> {
    ops_fold(keys, contract_balance_op(m))
}

/// The write of one account global shadow allocs sum.
pub open spec fn global_sum_op(m: Map<Seq<u8>, u128>) -> spec_fn(Key) -> Seq<CMDiskOp> {
    |k: Key| seq![CMDiskOp::PutAccountShadowAllocsSum(k, m[k@])]
}

/// Writes of account global shadow allocs sums.
pub open spec fn global_sum_ops(keys: Seq<Key>, m: Map<Seq<u8>, u128>) -> Seq<CMDiskOp> {
    ops_fold(keys, global_sum_op(m))
}

/// The write of one allocation of a contract's shadow space.
pub open spec fn alloc_op(c: Key, m: Map<Seq<u8>, u128>) -> spec_fn(Key) -> Seq<CMDiskOp> {
    |k: Key| seq![CMDiskOp::PutShadowAlloc(c, k, m[k@])]
}

/// Writes of one shadow space's allocations.
pub open spec fn alloc_ops(c: Key, keys: Seq<Key>, m: Map<Seq<u8>, u128>) -> Seq<CMDiskOp> {
    ops_fold(keys, alloc_op(c, m))
}

/// The writes of one shadow space: its allocations, then its allocs sum.
pub open spec fn space_op(spaces: Map<Seq<u8>, ShadowSpace>) -> spec_fn(Key) -> Seq<CMDiskOp> {
    |c: Key| alloc_ops(c, spaces[c@].allocs.raw_keys(), spaces[c@].allocs@).push(
        CMDiskOp::PutContractAllocsSum(c, spaces[c@].allocs_sum))
}

/// Writes of shadow spaces.
pub open spec fn space_ops(keys: Seq<Key>, spaces: Map<Seq<u8>, ShadowSpace>) -> Seq<CMDiskOp> {
    ops_fold(keys, space_op(spaces))
}

/// The deletion of one deallocated account of a contract.
pub open spec fn remove_op(c: Key) -> spec_fn(Key) -> Seq<CMDiskOp> {
    |a: Key| seq![CMDiskOp::RemoveShadowAlloc(c, a)]
}

/// Deletions of one contract's deallocated accounts.
pub open spec fn remove_ops(c: Key, accounts: Seq<Key>) -> Seq<CMDiskOp> {
    ops_fold(accounts, remove_op(c))
}

/// The deletions of one contract's deallocated accounts.
pub open spec fn dealloc_op(lists: Map<Seq<u8>, Vec<Key>>) -> spec_fn(Key) -> Seq<CMDiskOp> {
    |c: Key| remove_ops(c, lists[c@]@)
}

/// Deletions of every deallocated account, contract by contract.
pub open spec fn dealloc_ops(keys: Seq<Key>, lists: Map<Seq<u8>, Vec<Key>>) -> Seq<CMDiskOp> {
    ops_fold(keys, dealloc_op(lists))
}

/// Registers one new account with its balance and a zero allocs sum.
pub open spec fn register_account_step(m: Map<Seq<u8>, u64>) -> spec_fn(Map<Seq<u8>, CMAccountBody>, Key) -> Result<Map<Seq<u8>, CMAccountBody>, Key> {
    |a: Map<Seq<u8>, CMAccountBody>, k: Key| Ok(a.insert(k@, CMAccountBody { balance: m[k@], global_shadow_allocs_sum: 0 }))
}

/// Permanent accounts after registering new ones with their balances and a zero allocs sum.
pub open spec fn registered_accounts(
    accounts: Map<Seq<u8>, CMAccountBody>,
    keys: Seq<Key>,
    m: Map<Seq<u8>, u64>,
) -> Map<Seq<u8>, CMAccountBody> {
    step_fold(accounts, keys, register_account_step(m))->Ok_0
}

/// Registers one new contract with its balance and an empty shadow space.
pub open spec fn register_contract_step(m: Map<Seq<u8>, u64>) -> spec_fn(Map<Seq<u8>, CMContractBodyView>, Key) -> Result<Map<Seq<u8>, CMContractBodyView>, Key> {
    |c: Map<Seq<u8>, CMContractBodyView>, k: Key| Ok(c.insert(k@, CMContractBodyView {
        balance: m[k@],
        shadow_space: ShadowSpaceView { allocs_sum: 0, allocs: Map::empty(), deferred: 0 },
    }))
}

/// Permanent contracts after registering new ones with their balances and an empty shadow space.
pub open spec fn registered_contracts(
    contracts: Map<Seq<u8>, CMContractBodyView>,
    keys: Seq<Key>,
    m: Map<Seq<u8>, u64>,
) -> Map<Seq<u8>, CMContractBodyView> {
    step_fold(contracts, keys, register_contract_step(m))->Ok_0
}

/// Stores one account balance; fails when the account is not registered.
pub open spec fn balance_step(m: Map<Seq<u8>, u64>) -> spec_fn(Map<Seq<u8>, CMAccountBody>, Key) -> Result<Map<Seq<u8>, CMAccountBody>, Key> {
    |a: Map<Seq<u8>, CMAccountBody>, k: Key|
        if a.dom().contains(k@) {
            Ok(a.insert(k@, CMAccountBody { balance: m[k@], ..a[k@] }))
        } else {
            Err(k)
        }
}

/// Permanent accounts after storing their balances; fails on the first account that is not registered.
pub open spec fn balances_stored(
    accounts: Map<Seq<u8>, CMAccountBody>,
    keys: Seq<Key>,
    m: Map<Seq<u8>, u64>,
) -> Result<Map<Seq<u8>, CMAccountBody>, Key> {
    step_fold(accounts, keys, balance_step(m))
}

/// Stores one account global shadow allocs sum; fails when the account is not registered.
pub open spec fn global_sum_step(m: Map<Seq<u8>, u128>) -> spec_fn(Map<Seq<u8>, CMAccountBody>, Key) -> Result<Map<Seq<u8>, CMAccountBody>, Key> {
    |a: Map<Seq<u8>, CMAccountBody>, k: Key|
        if a.dom().contains(k@) {
            Ok(a.insert(k@, CMAccountBody { global_shadow_allocs_sum: m[k@], ..a[k@] }))
        } else {
            Err(k)
        }
}

/// Permanent accounts after storing their global shadow allocs sums; fails on the first account that is not registered.
pub open spec fn global_sums_stored(
    accounts: Map<Seq<u8>, CMAccountBody>,
    keys: Seq<Key>,
    m: Map<Seq<u8>, u128>,
) -> Result<Map<Seq<u8>, CMAccountBody>, Key> {
    step_fold(accounts, keys, global_sum_step(m))
}

/// Stores one contract balance; fails when the contract is not registered.
pub open spec fn contract_balance_step(m: Map<Seq<u8>, u64>) -> spec_fn(Map<Seq<u8>, CMContractBodyView>, Key) -> Result<Map<Seq<u8>, CMContractBodyView>, Key> {
    |c: Map<Seq<u8>, CMContractBodyView>, k: Key|
        if c.dom().contains(k@) {
            Ok(c.insert(k@, CMContractBodyView { balance: m[k@], ..c[k@] }))
        } else {
            Err(k)
        }
}

/// Permanent contracts after storing their balances; fails on the first contract that is not registered.
pub open spec fn contract_balances_stored(
    contracts: Map<Seq<u8>, CMContractBodyView>,
    keys: Seq<Key>,
    m: Map<Seq<u8>, u64>,
) -> Result<Map<Seq<u8>, CMContractBodyView>, Key> {
    step_fold(contracts, keys, contract_balance_step(m))
}

/// Stores one shadow space; fails when the contract is not registered.
pub open spec fn space_step(spaces: Map<Seq<u8>, ShadowSpace>) -> spec_fn(Map<Seq<u8>, CMContractBodyView>, Key) -> Result<Map<Seq<u8>, CMContractBodyView>, Key> {
    |c: Map<Seq<u8>, CMContractBodyView>, k: Key|
        if c.dom().contains(k@) {
            Ok(c.insert(k@, CMContractBodyView { shadow_space: spaces[k@]@, ..c[k@] }))
        } else {
            Err(k)
        }
}

/// Permanent contracts after storing their shadow spaces; fails on the first contract that is not registered.
pub open spec fn spaces_stored(
    contracts: Map<Seq<u8>, CMContractBodyView>,
    keys: Seq<Key>,
    spaces: Map<Seq<u8>, ShadowSpace>,
) -> Result<Map<Seq<u8>, CMContractBodyView>, Key> {
    step_fold(contracts, keys, space_step(spaces))
}

/// Allocations with the given accounts removed, one after the other; an account that holds no
/// allocation there is passed over.
pub open spec fn accounts_removed(allocs: Map<Seq<u8>, u128>, accounts: Seq<Key>) -> Map<Seq<u8>, u128>
    decreases accounts.len(),
{
    if accounts.len() == 0 {
        allocs
    } else {
        accounts_removed(allocs, accounts.drop_last()).remove(accounts.last()@)
    }
}

/// Removes one contract's deallocated accounts from its permanent shadow space; fails on a contract
/// that is not registered.
pub open spec fn dealloc_step(lists: Map<Seq<u8>, Vec<Key>>) -> spec_fn(Map<Seq<u8>, CMContractBodyView>, Key) -> Result<Map<Seq<u8>, CMContractBodyView>, Key> {
    |cs: Map<Seq<u8>, CMContractBodyView>, c: Key|
        if !cs.dom().contains(c@) {
            Err(c)
        } else {
            Ok(cs.insert(
                c@,
                CMContractBodyView {
                    shadow_space: ShadowSpaceView {
                        allocs: accounts_removed(cs[c@].shadow_space.allocs, lists[c@]@),
                        ..cs[c@].shadow_space
                    },
                    ..cs[c@]
                },
            ))
        }
}

/// Permanent contracts after removing the deallocated accounts, contract by contract.
pub open spec fn deallocs_stored(
    contracts: Map<Seq<u8>, CMContractBodyView>,
    keys: Seq<Key>,
    lists: Map<Seq<u8>, Vec<Key>>,
) -> Result<Map<Seq<u8>, CMContractBodyView>, Key> {
    step_fold(contracts, keys, dealloc_step(lists))
}


/// A shadow space with its deferred change distributed over its allocations and cleared.
pub open spec fn materialized(sp: ShadowSpaceView) -> ShadowSpaceView {
    ShadowSpaceView {
        allocs: sp.allocs.map_values(|v: u128| deferred_value(v, sp.deferred, sp.allocs_sum) as u128),
        deferred: 0,
        ..sp
    }
}

/// Every allocation of the space can take its share of the deferred change.
pub open spec fn space_computable(sp: ShadowSpaceView) -> bool {
    forall|a: Seq<u8>| #[trigger] sp.allocs.dom().contains(a) ==> deferred_computable(sp.allocs[a], sp.deferred, sp.allocs_sum)
}

/// Global shadow allocs sums (with their key order) after one space's allocations take their shares of
/// its deferred change, in allocation order. An account with no ephemeral sum starts from its permanent
/// one, or zero. `None` when a sum would leave the range of `u128`.
pub open spec fn spread_space(
    st: Option<(Map<Seq<u8>, u128>, Seq<Key>)>,
    akeys: Seq<Key>,
    sp: ShadowSpaceView,
    globals: Map<Seq<u8>, u128>,
) -> Option<(Map<Seq<u8>, u128>, Seq<Key>)>
    decreases akeys.len(),
{
    if akeys.len() == 0 {
        st
    } else {
        match spread_space(st, akeys.drop_last(), sp, globals) {
            None => None,
            Some((m, ks)) => {
                let a = akeys.last();
                let share = deferred_share(sp.allocs[a@], sp.deferred, sp.allocs_sum);
                if share <= 0 {
                    Some((m, ks))
                } else {
                    let cur: int = if m.dom().contains(a@) {
                        m[a@] as int
                    } else if globals.dom().contains(a@) {
                        globals[a@] as int
                    } else {
                        0
                    };
                    let new: int = if sp.deferred > 0 {
                        cur + share
                    } else {
                        cur - share
                    };
                    if 0 <= new <= u128::MAX {
                        Some((m.insert(a@, new as u128), if m.dom().contains(a@) { ks } else { ks.push(a) }))
                    } else {
                        None
                    }
                }
            },
        }
    }
}

/// Global shadow allocs sums after every space, in space order, spreads its deferred change.
pub open spec fn spread_spaces(
    st: Option<(Map<Seq<u8>, u128>, Seq<Key>)>,
    ckeys: Seq<Key>,
    spaces: Map<Seq<u8>, ShadowSpace>,
    globals: Map<Seq<u8>, u128>,
) -> Option<(Map<Seq<u8>, u128>, Seq<Key>)>
    decreases ckeys.len(),
{
    if ckeys.len() == 0 {
        st
    } else {
        let c = ckeys.last();
        spread_space(
            spread_spaces(st, ckeys.drop_last(), spaces, globals),
            spaces[c@].allocs.raw_keys(),
            spaces[c@]@,
            globals,
        )
    }
}

/// The global shadow allocs sums of a map of account bodies.
pub open spec fn globals_of(accounts: Map<Seq<u8>, CMAccountBody>) -> Map<Seq<u8>, u128> {
    accounts.map_values(|b: CMAccountBody| b.global_shadow_allocs_sum)
}

/// A failed spread stays failed.
pub proof fn lemma_spread_space_none(akeys: Seq<Key>, sp: ShadowSpaceView, globals: Map<Seq<u8>, u128>)
    ensures
        spread_space(None, akeys, sp, globals) is None,
    decreases akeys.len(),
{
    if akeys.len() > 0 {
        lemma_spread_space_none(akeys.drop_last(), sp, globals);
    }
}

/// A prefix of a successful spread over spaces is successful.
pub proof fn lemma_spread_spaces_prefix_some(
    st: Option<(Map<Seq<u8>, u128>, Seq<Key>)>,
    ckeys: Seq<Key>,
    i: int,
    spaces: Map<Seq<u8>, ShadowSpace>,
    globals: Map<Seq<u8>, u128>,
)
    requires
        0 <= i <= ckeys.len(),
        spread_spaces(st, ckeys, spaces, globals) is Some,
    ensures
        spread_spaces(st, ckeys.subrange(0, i), spaces, globals) is Some,
    decreases ckeys.len() - i,
{
    if i < ckeys.len() {
        lemma_spread_spaces_prefix_some(st, ckeys, i + 1, spaces, globals);
        let s = ckeys.subrange(0, i + 1);
        assert(s.drop_last() =~= ckeys.subrange(0, i));
        let c = ckeys[i];
        if spread_spaces(st, ckeys.subrange(0, i), spaces, globals) is None {
            lemma_spread_space_none(spaces[c@].allocs.raw_keys(), spaces[c@]@, globals);
        }
    } else {
        assert(ckeys.subrange(0, i) =~= ckeys);
    }
}

/// The permanent accounts once the new ones are registered.
pub open spec fn accounts_with_new(accounts: Map<Seq<u8>, CMAccountBody>, d: CMDelta) -> Map<Seq<u8>, CMAccountBody> {
    registered_accounts(accounts, d.new_accounts_to_register.raw_keys(), d.new_accounts_to_register@)
}

/// The permanent contracts once the new ones are registered.
pub open spec fn contracts_with_new(contracts: Map<Seq<u8>, CMContractBodyView>, d: CMDelta) -> Map<Seq<u8>, CMContractBodyView> {
    registered_contracts(contracts, d.new_contracts_to_register.raw_keys(), d.new_contracts_to_register@)
}

/// The global shadow allocs sums, with their key order, once every deferred change is spread.
pub open spec fn spread_of(accounts: Map<Seq<u8>, CMAccountBody>, d: CMDelta) -> Option<(Map<Seq<u8>, u128>, Seq<Key>)> {
    spread_spaces(
        Some((d.updated_shadow_allocs_sums@, d.updated_shadow_allocs_sums.raw_keys())),
        d.updated_shadow_spaces.raw_keys(),
        d.updated_shadow_spaces@,
        globals_of(accounts_with_new(accounts, d)),
    )
}

/// Applying the changes stays in range: every deferred change can be spread.
pub open spec fn apply_changes_safe(accounts: Map<Seq<u8>, CMAccountBody>, d: CMDelta) -> bool {
    &&& forall|c: Seq<u8>| #[trigger] d@.updated_shadow_spaces.dom().contains(c) ==> space_computable(d@.updated_shadow_spaces[c])
    &&& spread_of(accounts, d) is Some
}

/// The delta once every deferred change is spread: the global sums take the spread values and every
/// shadow space is materialized; key orders are kept, new sums go last.
pub open spec fn delta_spread(d: CMDelta, d5: CMDelta, accounts: Map<Seq<u8>, CMAccountBody>) -> bool {
    &&& spread_of(accounts, d) matches Some((sums, order))
    &&& d5@ == CMDeltaView {
        updated_shadow_allocs_sums: sums,
        updated_shadow_spaces: d@.updated_shadow_spaces.map_values(|sp: ShadowSpaceView| materialized(sp)),
        ..d@
    }
    &&& d5.updated_shadow_allocs_sums.raw_keys() == order
    &&& d5.updated_shadow_spaces.raw_keys() == d.updated_shadow_spaces.raw_keys()
    &&& forall|c: Seq<u8>| #[trigger] d5.updated_shadow_spaces@.dom().contains(c)
        ==> d5.updated_shadow_spaces@[c].allocs.raw_keys() == d.updated_shadow_spaces@[c].allocs.raw_keys()
    &&& d5.deallocs_list.raw_keys() == d.deallocs_list.raw_keys()
    &&& d5.deallocs_list@ == d.deallocs_list@
}

/// Every write of applying the changes, in order, as if no step failed.
pub open spec fn all_apply_ops(d: CMDelta, d5: CMDelta) -> Seq<CMDiskOp> {
    new_account_ops(d.new_accounts_to_register.raw_keys(), d.new_accounts_to_register@)
        + new_contract_ops(d.new_contracts_to_register.raw_keys(), d.new_contracts_to_register@)
        + account_balance_ops(d.updated_account_balances.raw_keys(), d.updated_account_balances@)
        + contract_balance_ops(d.updated_contract_balances.raw_keys(), d.updated_contract_balances@)
        + global_sum_ops(d5.updated_shadow_allocs_sums.raw_keys(), d5.updated_shadow_allocs_sums@)
        + space_ops(d5.updated_shadow_spaces.raw_keys(), d5.updated_shadow_spaces@)
        + dealloc_ops(d5.deallocs_list.raw_keys(), d5.deallocs_list@)
}

/// What applying the changes does. The permanent state is built step by step: register new accounts
/// and contracts, store balances, spread deferred changes, store global sums and shadow spaces, then
/// remove deallocated accounts (an account already gone from the stored space is passed over, its
/// deletion still written). The first step that meets an unknown account or contract fails with it.
/// On success every write is produced. On failure the state is that of the keys of the failing step
/// before the failing key, its writes are those up to the failing key's (a prefix of every write).
pub open spec fn apply_changes_outcome(
    old_accounts: Map<Seq<u8>, CMAccountBody>,
    old_contracts: Map<Seq<u8>, CMContractBodyView>,
    d: CMDelta,
    new_accounts: Map<Seq<u8>, CMAccountBody>,
    new_contracts: Map<Seq<u8>, CMContractBodyView>,
    d5: CMDelta,
    produced: Seq<CMDiskOp>,
    r: Result<(), CMApplyChangesError>,
) -> bool {
    let a1 = accounts_with_new(old_accounts, d);
    let c2 = contracts_with_new(old_contracts, d);
    let done2 = new_account_ops(d.new_accounts_to_register.raw_keys(), d.new_accounts_to_register@)
        + new_contract_ops(d.new_contracts_to_register.raw_keys(), d.new_contracts_to_register@);
    let kb = d.updated_account_balances.raw_keys();
    let mb = d.updated_account_balances@;
    let kc = d.updated_contract_balances.raw_keys();
    let mc = d.updated_contract_balances@;
    let done3 = done2 + account_balance_ops(kb, mb);
    let done4 = done3 + contract_balance_ops(kc, mc);
    let kg = d5.updated_shadow_allocs_sums.raw_keys();
    let mg = d5.updated_shadow_allocs_sums@;
    let ks = d5.updated_shadow_spaces.raw_keys();
    let ms = d5.updated_shadow_spaces@;
    let kd = d5.deallocs_list.raw_keys();
    let md = d5.deallocs_list@;
    let done6 = done4 + global_sum_ops(kg, mg);
    let done7 = done6 + space_ops(ks, ms);
    match balances_stored(a1, kb, mb) {
        Err(k) => r == Err::<(), CMApplyChangesError>(CMApplyChangesError::AccountApplyChangesError(
            CMAccountApplyChangesError::UnableToGetPermanentAccountBody(k),
        )) && produced.is_prefix_of(all_apply_ops(d, d)) && d5 == d && new_contracts == c2
            && exists|i: int| fold_stops_at(a1, kb, balance_step(mb), i, new_accounts)
                && produced == done2 + account_balance_ops(kb.subrange(0, i + 1), mb),
        Ok(a3) => match contract_balances_stored(c2, kc, mc) {
            Err(k) => r == Err::<(), CMApplyChangesError>(CMApplyChangesError::ContractApplyChangesError(
                CMContractApplyChangesError::UnableToGetPermanentContractBody(k),
            )) && produced.is_prefix_of(all_apply_ops(d, d)) && d5 == d && new_accounts == a3
                && exists|i: int| fold_stops_at(c2, kc, contract_balance_step(mc), i, new_contracts)
                    && produced == done3 + contract_balance_ops(kc.subrange(0, i + 1), mc),
            Ok(c4) => delta_spread(d, d5, old_accounts) && match global_sums_stored(a3, kg, mg) {
                Err(k) => r == Err::<(), CMApplyChangesError>(CMApplyChangesError::AccountApplyChangesError(
                    CMAccountApplyChangesError::UnableToGetPermanentAccountBody(k),
                )) && produced.is_prefix_of(all_apply_ops(d, d5)) && new_contracts == c4
                    && exists|i: int| fold_stops_at(a3, kg, global_sum_step(mg), i, new_accounts)
                        && produced == done4 + global_sum_ops(kg.subrange(0, i + 1), mg),
                Ok(a6) => match spaces_stored(c4, ks, ms) {
                    Err(k) => r == Err::<(), CMApplyChangesError>(CMApplyChangesError::ContractApplyChangesError(
                        CMContractApplyChangesError::UnableToGetPermanentContractBody(k),
                    )) && new_accounts == a6 && produced.is_prefix_of(all_apply_ops(d, d5))
                        && exists|i: int| fold_stops_at(c4, ks, space_step(ms), i, new_contracts)
                            && produced == done6 + space_ops(ks.subrange(0, i + 1), ms),
                    Ok(c7) => match deallocs_stored(c7, kd, md) {
                        Err(c) => r == Err::<(), CMApplyChangesError>(CMApplyChangesError::ContractApplyChangesError(
                            CMContractApplyChangesError::UnableToGetPermanentContractBody(c),
                        )) && new_accounts == a6 && produced.is_prefix_of(all_apply_ops(d, d5))
                            && exists|i: int| fold_stops_at(c7, kd, dealloc_step(md), i, new_contracts)
                                && produced == done7 + dealloc_ops(kd.subrange(0, i + 1), md),
                        Ok(c8) => r == Ok::<(), CMApplyChangesError>(()) && new_accounts == a6 && new_contracts == c8
                            && produced == all_apply_ops(d, d5),
                    },
                },
            },
        },
    }
}

/// Distributes a space's deferred change over its allocations, updating the accounts' global sums.
pub fn materialize_space(sp: &mut ShadowSpace, sums: &mut KeyMap<u128>, accounts: &KeyMap<CMAccountBody>)
    requires
        space_computable(old(sp)@),
        spread_space(Some((old(sums)@, old(sums).raw_keys())), old(sp).allocs.raw_keys(), old(sp)@, globals_of(accounts@)) is Some,
    ensures
        final(sp)@ == materialized(old(sp)@),
        final(sp).allocs.raw_keys() == old(sp).allocs.raw_keys(),
        Some((final(sums)@, final(sums).raw_keys())) == spread_space(
            Some((old(sums)@, old(sums).raw_keys())),
            old(sp).allocs.raw_keys(),
            old(sp)@,
            globals_of(accounts@),
        ),
{
    let ghost sp0 = sp@;
    let ghost keys0 = sp.allocs.raw_keys();
    let ghost st0 = Some((sums@, sums.raw_keys()));
    let d = sp.shadow_up_all_down_alls;
    let allocs_sum = sp.allocs_sum;
    let n = sp.allocs.len();
    let mut i: usize = 0;
    while i < n
        invariant
            0 <= i <= n,
            n == keys0.len(),
            sp0 == old(sp)@,
            keys0 == old(sp).allocs.raw_keys(),
            st0 == Some((old(sums)@, old(sums).raw_keys())),
            d == sp0.deferred,
            allocs_sum == sp0.allocs_sum,
            space_computable(sp0),
            sp.allocs.raw_keys() == keys0,
            sp.allocs_sum == sp0.allocs_sum,
            sp.shadow_up_all_down_alls == sp0.deferred,
            sp@.allocs.dom() == sp0.allocs.dom(),
            crate::keymap::key_views(keys0).no_duplicates(),
            forall|k: Seq<u8>| sp0.allocs.dom().contains(k) <==> crate::keymap::key_views(keys0).contains(k),
            forall|j: int| 0 <= j < i ==> #[trigger] sp@.allocs[keys0[j]@] == deferred_value(sp0.allocs[keys0[j]@], d, allocs_sum) as u128,
            forall|j: int| i <= j < n ==> #[trigger] sp@.allocs[keys0[j]@] == sp0.allocs[keys0[j]@],
            spread_space(st0, keys0, sp0, globals_of(accounts@)) is Some,
            Some((sums@, sums.raw_keys())) == spread_space(st0, keys0.subrange(0, i as int), sp0, globals_of(accounts@)),
        decreases n - i,
    {
        let a = sp.allocs.key_at(i);
        let v = *sp.allocs.value_at(i);
        proof {
            assert(keys0[i as int]@ == a@);
            assert(sp0.allocs.dom().contains(a@));
        }
        let (nv, share) = super::shadow_space::apply_deferred_change(v, d, allocs_sum);
        let ghost before = sp@.allocs;
        sp.insert_update_alloc(a, nv);
        proof {
            assert forall|j: int| 0 <= j < n && j != i implies keys0[j]@ != a@ by {
                assert(crate::keymap::key_views(keys0)[j] == keys0[j]@);
                assert(crate::keymap::key_views(keys0)[i as int] == keys0[i as int]@);
            }
            assert(keys0.subrange(0, i + 1).drop_last() =~= keys0.subrange(0, i as int));
            assert(keys0.subrange(0, i + 1).last() == a);
            lemma_spread_prefix_some(st0, keys0, (i + 1) as nat, sp0, globals_of(accounts@));
        }
        if share > 0 {
            let cur: u128 = match sums.get(&a) {
                Some(g) => *g,
                None => match accounts.get(&a) {
                    Some(b) => b.global_shadow_allocs_sum,
                    None => 0,
                },
            };
            let new: u128 = if d > 0 {
                cur + share
            } else {
                cur - share
            };
            sums.insert(a, new);
        }
        i = i + 1;
    }
    let ghost before = sp@.allocs;
    proof {
        assert(keys0.subrange(0, n as int) =~= keys0);
        assert forall|k: Seq<u8>| #[trigger] before.dom().contains(k) implies before[k] == materialized(sp0).allocs[k] by {
            assert(crate::keymap::key_views(keys0).contains(k));
            let j = choose|j: int| 0 <= j < crate::keymap::key_views(keys0).len() && crate::keymap::key_views(keys0)[j] == k;
            assert(keys0[j]@ == k);
        }
        assert(before =~= materialized(sp0).allocs);
    }
    sp.clear_deferred_proportional_change();
}

/// The global shadow allocs sum an account has once the new accounts are registered: zero for a new
/// account, its permanent one for another registered account, zero for an unknown one.
fn registered_global_sum(accounts: &KeyMap<CMAccountBody>, new: &KeyMap<u64>, a: Key) -> (r: u128)
    ensures
        r == (if globals_of(registered_accounts(accounts@, new.raw_keys(), new@)).dom().contains(a@) {
            globals_of(registered_accounts(accounts@, new.raw_keys(), new@))[a@]
        } else {
            0
        }),
{
    proof {
        super::laws::lemma_registered_accounts(accounts@, new.raw_keys(), new@);
        new.lemma_dom_keys();
    }
    let ghost ra = registered_accounts(accounts@, new.raw_keys(), new@);
    if new.contains_key(&a) {
        proof {
            assert(new.key_seq().contains(a@));
            assert(ra.dom().contains(a@));
            assert(globals_of(ra)[a@] == ra[a@].global_shadow_allocs_sum);
        }
        return 0;
    }
    proof {
        assert(!new.key_seq().contains(a@));
    }
    match accounts.get(&a) {
        Some(b) => {
            proof {
                assert(ra.dom().contains(a@));
                assert(ra[a@] == accounts@[a@]);
                assert(globals_of(ra)[a@] == ra[a@].global_shadow_allocs_sum);
            }
            b.global_shadow_allocs_sum
        },
        None => {
            proof {
                assert(!ra.dom().contains(a@));
            }
            0
        },
    }
}

/// Whether every allocation of a shadow space can take its share of the deferred change in range.
pub fn space_in_range(sp: &ShadowSpace) -> (r: bool)
    ensures
        r == space_computable(sp@),
{
    let n = sp.allocs.len();
    let mut i: usize = 0;
    proof {
        sp.allocs.lemma_dom_keys();
    }
    while i < n
        invariant
            0 <= i <= n,
            n == sp.allocs.key_seq().len(),
            forall|k: Seq<u8>| sp@.allocs.dom().contains(k) <==> sp.allocs.key_seq().contains(k),
            forall|j: int| 0 <= j < i ==> deferred_computable(#[trigger] sp@.allocs[sp.allocs.key_seq()[j]], sp@.deferred, sp@.allocs_sum),
        decreases n - i,
    {
        let v = *sp.allocs.value_at(i);
        if !deferred_in_range(v, sp.shadow_up_all_down_alls, sp.allocs_sum) {
            proof {
                assert(sp@.allocs.dom().contains(sp.allocs.key_seq()[i as int]));
            }
            return false;
        }
        i = i + 1;
    }
    proof {
        assert forall|a: Seq<u8>| #[trigger] sp@.allocs.dom().contains(a) implies deferred_computable(sp@.allocs[a], sp@.deferred, sp@.allocs_sum) by {
            assert(sp.allocs.key_seq().contains(a));
            let j = choose|j: int| 0 <= j < sp.allocs.key_seq().len() && sp.allocs.key_seq()[j] == a;
            assert(deferred_computable(sp@.allocs[sp.allocs.key_seq()[j]], sp@.deferred, sp@.allocs_sum));
        }
    }
    true
}

/// Spreads a shadow space's deferred change over the global sums in `sums`, checking every sum stays
/// in range; `false` (with `sums` in a state of no further use) when one would not.
pub fn spread_space_in_range(
    sums: &mut KeyMap<u128>,
    sp: &ShadowSpace,
    accounts: &KeyMap<CMAccountBody>,
    new: &KeyMap<u64>,
) -> (r: bool)
    requires
        space_computable(sp@),
    ensures
        r == spread_space(
            Some((old(sums)@, old(sums).raw_keys())),
            sp.allocs.raw_keys(),
            sp@,
            globals_of(registered_accounts(accounts@, new.raw_keys(), new@)),
        ) is Some,
        r ==> Some((final(sums)@, final(sums).raw_keys())) == spread_space(
            Some((old(sums)@, old(sums).raw_keys())),
            sp.allocs.raw_keys(),
            sp@,
            globals_of(registered_accounts(accounts@, new.raw_keys(), new@)),
        ),
{
    let ghost g = globals_of(registered_accounts(accounts@, new.raw_keys(), new@));
    let ghost sp0 = sp@;
    let ghost keys0 = sp.allocs.raw_keys();
    let ghost st0 = Some((sums@, sums.raw_keys()));
    let d = sp.shadow_up_all_down_alls;
    let allocs_sum = sp.allocs_sum;
    let n = sp.allocs.len();
    let mut i: usize = 0;
    while i < n
        invariant
            0 <= i <= n,
            n == keys0.len(),
            sp0 == sp@,
            keys0 == sp.allocs.raw_keys(),
            st0 == Some((old(sums)@, old(sums).raw_keys())),
            g == globals_of(registered_accounts(accounts@, new.raw_keys(), new@)),
            d == sp0.deferred,
            allocs_sum == sp0.allocs_sum,
            space_computable(sp0),
            Some((sums@, sums.raw_keys())) == spread_space(st0, keys0.subrange(0, i as int), sp0, g),
        decreases n - i,
    {
        let a = sp.allocs.key_at(i);
        let v = *sp.allocs.value_at(i);
        proof {
            assert(keys0[i as int]@ == a@);
            assert(sp0.allocs.dom().contains(a@));
            assert(keys0.subrange(0, i + 1).drop_last() =~= keys0.subrange(0, i as int));
            assert(keys0.subrange(0, i + 1).last() == a);
        }
        let (nv, share) = super::shadow_space::apply_deferred_change(v, d, allocs_sum);
        if share > 0 {
            let cur: u128 = match sums.get(&a) {
                Some(x) => *x,
                None => registered_global_sum(accounts, new, a),
            };
            let next: Option<u128> = if d > 0 {
                cur.checked_add(share)
            } else {
                cur.checked_sub(share)
            };
            match next {
                None => {
                    proof {
                        assert(spread_space(st0, keys0.subrange(0, i + 1), sp0, g) is None);
                        if spread_space(st0, keys0, sp0, g) is Some {
                            lemma_spread_prefix_some(st0, keys0, (i + 1) as nat, sp0, g);
                        }
                    }
                    return false;
                },
                Some(x) => {
                    sums.insert(a, x);
                },
            }
        }
        i = i + 1;
    }
    proof {
        assert(keys0.subrange(0, n as int) =~= keys0);
    }
    true
}

/// Whether applying the changes stays in range: every updated shadow space can spread its deferred
/// change, and every global sum it moves stays in range.
pub fn changes_in_range(d: &CMDelta, accounts: &KeyMap<CMAccountBody>) -> (r: bool)
    ensures
        r == apply_changes_safe(accounts@, *d),
{
    let spaces = &d.updated_shadow_spaces;
    let n = spaces.len();
    proof {
        spaces.lemma_dom_keys();
    }
    let mut i: usize = 0;
    while i < n
        invariant
            0 <= i <= n,
            *spaces == d.updated_shadow_spaces,
            n == spaces.key_seq().len(),
            forall|k: Seq<u8>| spaces@.dom().contains(k) <==> spaces.key_seq().contains(k),
            forall|j: int| 0 <= j < i ==> space_computable((#[trigger] spaces@[spaces.key_seq()[j]])@),
        decreases n - i,
    {
        let sp = spaces.value_at(i);
        if !space_in_range(sp) {
            proof {
                let c = spaces.key_seq()[i as int];
                assert(spaces.key_seq().contains(c));
                assert(spaces@.dom().contains(c));
                assert(d@.updated_shadow_spaces.dom().contains(c));
                assert(d@.updated_shadow_spaces[c] == spaces@[c]@);
            }
            return false;
        }
        i = i + 1;
    }
    proof {
        assert forall|c: Seq<u8>| #[trigger] spaces@.dom().contains(c) implies space_computable(spaces@[c]@) by {
            assert(spaces.key_seq().contains(c));
            let j = choose|j: int| 0 <= j < spaces.key_seq().len() && spaces.key_seq()[j] == c;
            assert(space_computable(spaces@[spaces.key_seq()[j]]@));
        }
        assert forall|c: Seq<u8>| #[trigger] d@.updated_shadow_spaces.dom().contains(c) implies space_computable(d@.updated_shadow_spaces[c]) by {
            assert(spaces@.dom().contains(c));
            assert(d@.updated_shadow_spaces[c] == spaces@[c]@);
        }
    }
    let ghost keys = spaces.raw_keys();
    let ghost g = globals_of(accounts_with_new(accounts@, *d));
    let ghost st0 = Some((d.updated_shadow_allocs_sums@, d.updated_shadow_allocs_sums.raw_keys()));
    let mut sums = d.updated_shadow_allocs_sums.copy();
    let mut k: usize = 0;
    while k < n
        invariant
            0 <= k <= n,
            n == keys.len(),
            keys == spaces.raw_keys(),
            spaces == &d.updated_shadow_spaces,
            g == globals_of(accounts_with_new(accounts@, *d)),
            st0 == Some((d.updated_shadow_allocs_sums@, d.updated_shadow_allocs_sums.raw_keys())),
            forall|c: Seq<u8>| #[trigger] spaces@.dom().contains(c) ==> space_computable(spaces@[c]@),
            Some((sums@, sums.raw_keys())) == spread_spaces(st0, keys.subrange(0, k as int), spaces@, g),
        decreases n - k,
    {
        let c = spaces.key_at(k);
        let sp = spaces.value_at(k);
        proof {
            assert(keys.subrange(0, k + 1).drop_last() =~= keys.subrange(0, k as int));
            assert(keys.subrange(0, k + 1).last() == c);
            assert(spaces.key_seq()[k as int] == c@);
        }
        if !spread_space_in_range(&mut sums, sp, accounts, &d.new_accounts_to_register) {
            proof {
                assert(spread_spaces(st0, keys.subrange(0, k + 1), spaces@, g) is None);
                if spread_spaces(st0, keys, spaces@, g) is Some {
                    lemma_spread_spaces_prefix_some(st0, keys, k + 1, spaces@, g);
                }
            }
            return false;
        }
        k = k + 1;
    }
    proof {
        assert(keys.subrange(0, n as int) =~= keys);
    }
    true
}

/// A prefix of a successful spread is successful.
pub proof fn lemma_spread_prefix_some(
    st: Option<(Map<Seq<u8>, u128>, Seq<Key>)>,
    keys: Seq<Key>,
    i: nat,
    sp: ShadowSpaceView,
    globals: Map<Seq<u8>, u128>,
)
    requires
        i <= keys.len(),
        spread_space(st, keys, sp, globals) is Some,
    ensures
        spread_space(st, keys.subrange(0, i as int), sp, globals) is Some,
    decreases keys.len() - i,
{
    if i < keys.len() {
        assert(keys.subrange(0, (i + 1) as int).drop_last() =~= keys.subrange(0, i as int));
        lemma_spread_prefix_some(st, keys, (i + 1) as nat, sp, globals);
    } else {
        assert(keys.subrange(0, i as int) =~= keys);
    }
}

} // verus!
