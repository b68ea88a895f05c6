use super::account_body::CMAccountBody;
use super::apply_spec::{
    account_balance_op, account_balance_ops, accounts_removed, alloc_op, alloc_ops, balance_step, balances_stored,
    contract_balance_op, contract_balance_ops, contract_balance_step, contract_balances_stored, dealloc_op,
    dealloc_ops, dealloc_step, deallocs_stored, global_sum_op, global_sum_ops, global_sum_step, global_sums_stored,
    new_account_op, new_account_ops, new_contract_op, new_contract_ops, register_account_step,
    register_contract_step, registered_accounts, registered_contracts, remove_op, remove_ops,
    space_op, space_ops, space_step, spaces_stored, all_apply_ops, accounts_with_new, apply_changes_outcome,
    contracts_with_new, materialized, CMDiskOp,
};
use super::delta::CMDelta;
use super::load::{account_tree_body, all_bytes, contract_tree_body};
use crate::codec::{le_encode, le_value, lemma_le_round_trip, lemma_pow256_values};
use super::contract_body::CMContractBodyView;
use super::shadow_space::{ShadowSpace, ShadowSpaceView};
use crate::keymap::key_views;
use crate::fold::{ops_fold, step_fold};
use crate::keymap::Key;
use vstd::prelude::*;

verus! {

/// A body of zero balance and zero allocs sum: what an account tree with no entry reads as.
pub open spec fn zero_account() -> CMAccountBody {
    CMAccountBody { balance: 0, global_shadow_allocs_sum: 0 }
}

/// The body the store holds for an account, zero where it holds none.
pub open spec fn stored_account(accounts: Map<Seq<u8>, CMAccountBody>, k: Seq<u8>) -> CMAccountBody {
    if accounts.dom().contains(k) {
        accounts[k]
    } else {
        zero_account()
    }
}

/// The account bodies the store holds once one write is made to it: a balance or a global shadow
/// allocs sum replaces that value in its account's tree; writes to contract trees leave them.
pub open spec fn account_write(accounts: Map<Seq<u8>, CMAccountBody>, op: CMDiskOp) -> Map<Seq<u8>, CMAccountBody> {
    match op {
        CMDiskOp::PutAccountBalance(k, v) => accounts.insert(
            k@,
            CMAccountBody { balance: v, ..stored_account(accounts, k@) },
        ),
        CMDiskOp::PutAccountShadowAllocsSum(k, s) => accounts.insert(
            k@,
            CMAccountBody { global_shadow_allocs_sum: s, ..stored_account(accounts, k@) },
        ),
        _ => accounts,
    }
}

/// The account bodies the store holds once the writes are made to it, in order.
pub open spec fn accounts_written(accounts: Map<Seq<u8>, CMAccountBody>, ops: Seq<CMDiskOp>) -> Map<Seq<u8>, CMAccountBody>
    decreases ops.len(),
{
    if ops.len() == 0 {
        accounts
    } else {
        account_write(accounts_written(accounts, ops.drop_last()), ops.last())
    }
}

/// A write to a contract tree.
pub open spec fn is_contract_op(op: CMDiskOp) -> bool {
    !(op is PutAccountBalance) && !(op is PutAccountShadowAllocsSum)
}

/// Writes made one after the other.
pub proof fn lemma_accounts_written_concat(a: Map<Seq<u8>, CMAccountBody>, s1: Seq<CMDiskOp>, s2: Seq<CMDiskOp>)
    ensures
        accounts_written(a, s1 + s2) == accounts_written(accounts_written(a, s1), s2),
    decreases s2.len(),
{
    if s2.len() == 0 {
        assert(s1 + s2 =~= s1);
    } else {
        lemma_accounts_written_concat(a, s1, s2.drop_last());
        assert((s1 + s2).drop_last() =~= s1 + s2.drop_last());
        assert((s1 + s2).last() == s2.last());
    }
}

/// Writes to contract trees leave the account bodies.
pub proof fn lemma_contract_ops_keep_accounts(a: Map<Seq<u8>, CMAccountBody>, s: Seq<CMDiskOp>)
    requires
        forall|i: int| 0 <= i < s.len() ==> is_contract_op(#[trigger] s[i]),
    ensures
        accounts_written(a, s) == a,
    decreases s.len(),
{
    if s.len() > 0 {
        assert(is_contract_op(s[s.len() - 1]));
        lemma_contract_ops_keep_accounts(a, s.drop_last());
    }
}

/// Every write of a fold satisfies what every write of each key satisfies.
pub proof fn lemma_fold_all<T>(keys: Seq<Key>, f: spec_fn(Key) -> Seq<T>, p: spec_fn(T) -> bool)
    requires
        forall|k: Key, i: int| 0 <= i < f(k).len() ==> p(#[trigger] f(k)[i]),
    ensures
        forall|i: int| 0 <= i < ops_fold(keys, f).len() ==> p(#[trigger] ops_fold(keys, f)[i]),
    decreases keys.len(),
{
    if keys.len() > 0 {
        lemma_fold_all(keys.drop_last(), f, p);
        let a = ops_fold(keys.drop_last(), f);
        let b = f(keys.last());
        assert forall|i: int| 0 <= i < (a + b).len() implies p(#[trigger] (a + b)[i]) by {
            if i < a.len() {
                assert((a + b)[i] == a[i]);
            } else {
                assert((a + b)[i] == b[i - a.len()]);
            }
        }
    }
}

/// Registering new accounts always succeeds.
pub proof fn lemma_register_accounts_ok(a: Map<Seq<u8>, CMAccountBody>, keys: Seq<Key>, m: Map<Seq<u8>, u64>)
    ensures
        step_fold(a, keys, register_account_step(m)) is Ok,
    decreases keys.len(),
{
    if keys.len() > 0 {
        lemma_register_accounts_ok(a, keys.drop_last(), m);
    }
}

/// The writes that register new accounts give the registered accounts.
pub proof fn lemma_new_accounts_written(a: Map<Seq<u8>, CMAccountBody>, keys: Seq<Key>, m: Map<Seq<u8>, u64>)
    ensures
        accounts_written(a, new_account_ops(keys, m)) == registered_accounts(a, keys, m),
    decreases keys.len(),
{
    if keys.len() > 0 {
        let p = keys.drop_last();
        let k = keys.last();
        lemma_new_accounts_written(a, p, m);
        lemma_register_accounts_ok(a, p, m);
        lemma_accounts_written_concat(a, ops_fold(p, new_account_op(m)), new_account_op(m)(k));
        let r = registered_accounts(a, p, m);
        let w = new_account_op(m)(k);
        let w1 = seq![CMDiskOp::PutAccountBalance(k, m[k@])];
        assert(w.drop_last() =~= w1);
        assert(w1.drop_last() =~= Seq::<CMDiskOp>::empty());
        assert(accounts_written(r, w1.drop_last()) == r);
        let r1 = accounts_written(r, w1);
        assert(r1 == r.insert(k@, CMAccountBody { balance: m[k@], ..stored_account(r, k@) }));
        assert(accounts_written(r, w) == account_write(r1, CMDiskOp::PutAccountShadowAllocsSum(k, 0)));
        assert(accounts_written(r, w) =~= r.insert(k@, CMAccountBody { balance: m[k@], global_shadow_allocs_sum: 0 }));
    } else {
        assert(new_account_ops(keys, m) =~= Seq::<CMDiskOp>::empty());
    }
}

/// The writes of account balances give the accounts with those balances stored.
pub proof fn lemma_balances_written(a: Map<Seq<u8>, CMAccountBody>, keys: Seq<Key>, m: Map<Seq<u8>, u64>)
    requires
        balances_stored(a, keys, m) is Ok,
    ensures
        accounts_written(a, account_balance_ops(keys, m)) == balances_stored(a, keys, m)->Ok_0,
    decreases keys.len(),
{
    if keys.len() > 0 {
        let p = keys.drop_last();
        let k = keys.last();
        assert(balances_stored(a, p, m) is Ok);
        lemma_balances_written(a, p, m);
        lemma_accounts_written_concat(a, ops_fold(p, account_balance_op(m)), account_balance_op(m)(k));
        let r = balances_stored(a, p, m)->Ok_0;
        let w = account_balance_op(m)(k);
        assert(w.drop_last() =~= Seq::<CMDiskOp>::empty());
        assert(accounts_written(r, w.drop_last()) == r);
        assert(r.dom().contains(k@));
        assert(accounts_written(r, w) =~= r.insert(k@, CMAccountBody { balance: m[k@], ..r[k@] }));
    } else {
        assert(account_balance_ops(keys, m) =~= Seq::<CMDiskOp>::empty());
    }
}

/// The writes of global shadow allocs sums give the accounts with those sums stored.
pub proof fn lemma_global_sums_written(a: Map<Seq<u8>, CMAccountBody>, keys: Seq<Key>, m: Map<Seq<u8>, u128>)
    requires
        global_sums_stored(a, keys, m) is Ok,
    ensures
        accounts_written(a, global_sum_ops(keys, m)) == global_sums_stored(a, keys, m)->Ok_0,
    decreases keys.len(),
{
    if keys.len() > 0 {
        let p = keys.drop_last();
        let k = keys.last();
        assert(global_sums_stored(a, p, m) is Ok);
        lemma_global_sums_written(a, p, m);
        lemma_accounts_written_concat(a, ops_fold(p, global_sum_op(m)), global_sum_op(m)(k));
        let r = global_sums_stored(a, p, m)->Ok_0;
        let w = global_sum_op(m)(k);
        assert(w.drop_last() =~= Seq::<CMDiskOp>::empty());
        assert(accounts_written(r, w.drop_last()) == r);
        assert(r.dom().contains(k@));
        assert(accounts_written(r, w) =~= r.insert(k@, CMAccountBody { global_shadow_allocs_sum: m[k@], ..r[k@] }));
    } else {
        assert(global_sum_ops(keys, m) =~= Seq::<CMDiskOp>::empty());
    }
}

/// An empty shadow space with no deferred change.
pub open spec fn empty_space() -> ShadowSpaceView {
    ShadowSpaceView { allocs_sum: 0, allocs: Map::empty(), deferred: 0 }
}

/// The body the store holds for a contract, zero balance and an empty shadow space where it holds
/// none.
pub open spec fn stored_contract(contracts: Map<Seq<u8>, CMContractBodyView>, c: Seq<u8>) -> CMContractBodyView {
    if contracts.dom().contains(c) {
        contracts[c]
    } else {
        CMContractBodyView { balance: 0, shadow_space: empty_space() }
    }
}

/// A contract body with its shadow space allocations replaced.
pub open spec fn with_allocs(b: CMContractBodyView, allocs: Map<Seq<u8>, u128>) -> CMContractBodyView {
    CMContractBodyView { shadow_space: ShadowSpaceView { allocs, ..b.shadow_space }, ..b }
}

/// The contract bodies the store holds once one write is made to it: a balance, an allocs sum or an
/// allocation replaces that value in its contract's tree, a deletion removes the allocation; writes
/// to account trees leave them.
pub open spec fn contract_write(contracts: Map<Seq<u8>, CMContractBodyView>, op: CMDiskOp) -> Map<Seq<u8>, CMContractBodyView> {
    match op {
        CMDiskOp::PutContractBalance(c, v) => contracts.insert(
            c@,
            CMContractBodyView { balance: v, ..stored_contract(contracts, c@) },
        ),
        CMDiskOp::PutContractAllocsSum(c, v) => {
            let b = stored_contract(contracts, c@);
            contracts.insert(c@, CMContractBodyView { shadow_space: ShadowSpaceView { allocs_sum: v, ..b.shadow_space }, ..b })
        },
        CMDiskOp::PutShadowAlloc(c, a, v) => {
            let b = stored_contract(contracts, c@);
            contracts.insert(c@, with_allocs(b, b.shadow_space.allocs.insert(a@, v)))
        },
        CMDiskOp::RemoveShadowAlloc(c, a) => {
            let b = stored_contract(contracts, c@);
            contracts.insert(c@, with_allocs(b, b.shadow_space.allocs.remove(a@)))
        },
        _ => contracts,
    }
}

/// The contract bodies the store holds once the writes are made to it, in order.
pub open spec fn contracts_written(contracts: Map<Seq<u8>, CMContractBodyView>, ops: Seq<CMDiskOp>) -> Map<Seq<u8>, CMContractBodyView>
    decreases ops.len(),
{
    if ops.len() == 0 {
        contracts
    } else {
        contract_write(contracts_written(contracts, ops.drop_last()), ops.last())
    }
}

/// Writes made one after the other.
pub proof fn lemma_contracts_written_concat(c: Map<Seq<u8>, CMContractBodyView>, s1: Seq<CMDiskOp>, s2: Seq<CMDiskOp>)
    ensures
        contracts_written(c, s1 + s2) == contracts_written(contracts_written(c, s1), s2),
    decreases s2.len(),
{
    if s2.len() == 0 {
        assert(s1 + s2 =~= s1);
    } else {
        lemma_contracts_written_concat(c, s1, s2.drop_last());
        assert((s1 + s2).drop_last() =~= s1 + s2.drop_last());
        assert((s1 + s2).last() == s2.last());
    }
}

/// Writes to account trees leave the contract bodies.
pub proof fn lemma_account_ops_keep_contracts(c: Map<Seq<u8>, CMContractBodyView>, s: Seq<CMDiskOp>)
    requires
        forall|i: int| 0 <= i < s.len() ==> !is_contract_op(#[trigger] s[i]),
    ensures
        contracts_written(c, s) == c,
    decreases s.len(),
{
    if s.len() > 0 {
        assert(!is_contract_op(s[s.len() - 1]));
        lemma_account_ops_keep_contracts(c, s.drop_last());
    }
}

/// A contract is held as it was.
pub open spec fn kept_contract(now: Map<Seq<u8>, CMContractBodyView>, before: Map<Seq<u8>, CMContractBodyView>, x: Seq<u8>) -> bool {
    now.dom().contains(x) && now[x] == before[x]
}

/// Registering new contracts always succeeds, and a contract registered by it that was not there
/// before has an empty shadow space.
pub proof fn lemma_register_contracts_shape(cs: Map<Seq<u8>, CMContractBodyView>, keys: Seq<Key>, m: Map<Seq<u8>, u64>)
    ensures
        step_fold(cs, keys, register_contract_step(m)) is Ok,
        forall|x: Seq<u8>| #[trigger] registered_contracts(cs, keys, m).dom().contains(x) && !cs.dom().contains(x)
            ==> registered_contracts(cs, keys, m)[x].shadow_space == empty_space(),
        forall|x: Seq<u8>| cs.dom().contains(x) && !key_views(keys).contains(x)
            ==> #[trigger] kept_contract(registered_contracts(cs, keys, m), cs, x),
    decreases keys.len(),
{
    if keys.len() > 0 {
        let p = keys.drop_last();
        let k = keys.last();
        lemma_register_contracts_shape(cs, p, m);
        let r = registered_contracts(cs, p, m);
        assert(step_fold(cs, keys, register_contract_step(m)) == register_contract_step(m)(r, k));
        assert(registered_contracts(cs, keys, m) == r.insert(k@, CMContractBodyView { balance: m[k@], shadow_space: empty_space() }));
        assert forall|x: Seq<u8>| cs.dom().contains(x) && !key_views(keys).contains(x)
            implies #[trigger] kept_contract(registered_contracts(cs, keys, m), cs, x) by {
            assert(key_views(keys)[keys.len() - 1] == k@);
            if key_views(p).contains(x) {
                let i = choose|i: int| 0 <= i < key_views(p).len() && key_views(p)[i] == x;
                assert(key_views(keys)[i] == x);
            }
            assert(x != k@);
            assert(kept_contract(r, cs, x));
        }
    } else {
        assert(key_views(keys) =~= Seq::<Seq<u8>>::empty());
        assert(registered_contracts(cs, keys, m) == cs);
    }
}

/// The writes that register contracts not registered yet give the registered contracts.
pub proof fn lemma_new_contracts_written(cs: Map<Seq<u8>, CMContractBodyView>, keys: Seq<Key>, m: Map<Seq<u8>, u64>)
    requires
        forall|i: int| 0 <= i < keys.len() ==> !cs.dom().contains(#[trigger] keys[i]@),
    ensures
        contracts_written(cs, new_contract_ops(keys, m)) == registered_contracts(cs, keys, m),
    decreases keys.len(),
{
    if keys.len() > 0 {
        let p = keys.drop_last();
        let k = keys.last();
        assert forall|i: int| 0 <= i < p.len() implies !cs.dom().contains(#[trigger] p[i]@) by {
            assert(p[i] == keys[i]);
        }
        lemma_new_contracts_written(cs, p, m);
        lemma_register_contracts_shape(cs, p, m);
        lemma_contracts_written_concat(cs, ops_fold(p, new_contract_op(m)), new_contract_op(m)(k));
        let r = registered_contracts(cs, p, m);
        assert(!cs.dom().contains(keys[keys.len() - 1]@));
        assert(stored_contract(r, k@).shadow_space == empty_space());
        let w = new_contract_op(m)(k);
        let w1 = seq![CMDiskOp::PutContractBalance(k, m[k@])];
        assert(w.drop_last() =~= w1);
        assert(w1.drop_last() =~= Seq::<CMDiskOp>::empty());
        assert(contracts_written(r, w1.drop_last()) == r);
        let r1 = contracts_written(r, w1);
        assert(r1 == r.insert(k@, CMContractBodyView { balance: m[k@], ..stored_contract(r, k@) }));
        assert(contracts_written(r, w) == contract_write(r1, CMDiskOp::PutContractAllocsSum(k, 0)));
        assert(contracts_written(r, w) =~= r.insert(k@, CMContractBodyView { balance: m[k@], shadow_space: empty_space() }));
    } else {
        assert(new_contract_ops(keys, m) =~= Seq::<CMDiskOp>::empty());
    }
}

/// The writes of contract balances give the contracts with those balances stored.
pub proof fn lemma_contract_balances_written(cs: Map<Seq<u8>, CMContractBodyView>, keys: Seq<Key>, m: Map<Seq<u8>, u64>)
    requires
        contract_balances_stored(cs, keys, m) is Ok,
    ensures
        contracts_written(cs, contract_balance_ops(keys, m)) == contract_balances_stored(cs, keys, m)->Ok_0,
    decreases keys.len(),
{
    if keys.len() > 0 {
        let p = keys.drop_last();
        let k = keys.last();
        assert(contract_balances_stored(cs, p, m) is Ok);
        lemma_contract_balances_written(cs, p, m);
        lemma_contracts_written_concat(cs, ops_fold(p, contract_balance_op(m)), contract_balance_op(m)(k));
        let r = contract_balances_stored(cs, p, m)->Ok_0;
        let w = contract_balance_op(m)(k);
        assert(w.drop_last() =~= Seq::<CMDiskOp>::empty());
        assert(contracts_written(r, w.drop_last()) == r);
        assert(r.dom().contains(k@));
        assert(contracts_written(r, w) =~= r.insert(k@, CMContractBodyView { balance: m[k@], ..r[k@] }));
    } else {
        assert(contract_balance_ops(keys, m) =~= Seq::<CMDiskOp>::empty());
    }
}

/// Contract balances stored leave every shadow space.
pub proof fn lemma_contract_balances_shape(cs: Map<Seq<u8>, CMContractBodyView>, keys: Seq<Key>, m: Map<Seq<u8>, u64>)
    requires
        contract_balances_stored(cs, keys, m) is Ok,
    ensures
        contract_balances_stored(cs, keys, m)->Ok_0.dom() == cs.dom(),
        forall|x: Seq<u8>| #[trigger] cs.dom().contains(x)
            ==> contract_balances_stored(cs, keys, m)->Ok_0[x].shadow_space == cs[x].shadow_space,
    decreases keys.len(),
{
    if keys.len() > 0 {
        let p = keys.drop_last();
        assert(contract_balances_stored(cs, p, m) is Ok);
        lemma_contract_balances_shape(cs, p, m);
        let r = contract_balances_stored(cs, p, m)->Ok_0;
        assert(contract_balances_stored(cs, keys, m) == contract_balance_step(m)(r, keys.last()));
        assert(contract_balances_stored(cs, keys, m)->Ok_0.dom() =~= cs.dom());
    }
}

/// Allocations after each listed account is given its value from `m`, in order.
pub open spec fn allocs_put(allocs: Map<Seq<u8>, u128>, keys: Seq<Key>, m: Map<Seq<u8>, u128>) -> Map<Seq<u8>, u128>
    decreases keys.len(),
{
    if keys.len() == 0 {
        allocs
    } else {
        allocs_put(allocs, keys.drop_last(), m).insert(keys.last()@, m[keys.last()@])
    }
}

/// What putting allocations gives: the listed accounts with their values from `m`, the others as
/// they were.
pub proof fn lemma_allocs_put(allocs: Map<Seq<u8>, u128>, keys: Seq<Key>, m: Map<Seq<u8>, u128>)
    ensures
        forall|x: Seq<u8>| #[trigger] allocs_put(allocs, keys, m).dom().contains(x)
            <==> allocs.dom().contains(x) || key_views(keys).contains(x),
        forall|x: Seq<u8>| #[trigger] allocs_put(allocs, keys, m).dom().contains(x)
            ==> allocs_put(allocs, keys, m)[x] == if key_views(keys).contains(x) { m[x] } else { allocs[x] },
    decreases keys.len(),
{
    if keys.len() > 0 {
        let p = keys.drop_last();
        let k = keys.last();
        lemma_allocs_put(allocs, p, m);
        assert(key_views(keys) =~= key_views(p).push(k@));
        assert forall|x: Seq<u8>| key_views(keys).contains(x) <==> key_views(p).contains(x) || x == k@ by {
            crate::keymap::lemma_push_contains(key_views(p), k@);
        }
        let q = allocs_put(allocs, p, m);
        assert(allocs_put(allocs, keys, m) == q.insert(k@, m[k@]));
        assert forall|x: Seq<u8>| #[trigger] allocs_put(allocs, keys, m).dom().contains(x)
            <==> allocs.dom().contains(x) || key_views(keys).contains(x) by {
            assert(q.dom().contains(x) <==> allocs.dom().contains(x) || key_views(p).contains(x));
        }
        assert forall|x: Seq<u8>| #[trigger] allocs_put(allocs, keys, m).dom().contains(x)
            implies allocs_put(allocs, keys, m)[x] == if key_views(keys).contains(x) { m[x] } else { allocs[x] } by {
            if x != k@ {
                assert(q.dom().contains(x));
            }
        }
    } else {
        assert(key_views(keys) =~= Seq::<Seq<u8>>::empty());
    }
}

/// The writes of allocations into a registered contract's tree give it those allocations.
pub proof fn lemma_alloc_ops_written(cs: Map<Seq<u8>, CMContractBodyView>, c: Key, keys: Seq<Key>, m: Map<Seq<u8>, u128>)
    requires
        cs.dom().contains(c@),
    ensures
        contracts_written(cs, alloc_ops(c, keys, m)) == cs.insert(c@, with_allocs(cs[c@], allocs_put(cs[c@].shadow_space.allocs, keys, m))),
    decreases keys.len(),
{
    if keys.len() > 0 {
        let p = keys.drop_last();
        let k = keys.last();
        lemma_alloc_ops_written(cs, c, p, m);
        lemma_contracts_written_concat(cs, ops_fold(p, alloc_op(c, m)), alloc_op(c, m)(k));
        let r = contracts_written(cs, alloc_ops(c, p, m));
        let w = alloc_op(c, m)(k);
        assert(w.drop_last() =~= Seq::<CMDiskOp>::empty());
        assert(contracts_written(r, w.drop_last()) == r);
        assert(contracts_written(r, w) == contract_write(r, CMDiskOp::PutShadowAlloc(c, k, m[k@])));
        assert(contracts_written(cs, alloc_ops(c, keys, m)) =~= cs.insert(c@, with_allocs(cs[c@], allocs_put(cs[c@].shadow_space.allocs, keys, m))));
    } else {
        assert(alloc_ops(c, keys, m) =~= Seq::<CMDiskOp>::empty());
        assert(cs.insert(c@, with_allocs(cs[c@], cs[c@].shadow_space.allocs)) =~= cs);
    }
}

/// A stored shadow space fits the updated one that replaces it: the same deferred change, and no
/// allocation that the updated one lacks.
pub open spec fn space_fits(cs: Map<Seq<u8>, CMContractBodyView>, c: Seq<u8>, spaces: Map<Seq<u8>, ShadowSpace>) -> bool {
    cs.dom().contains(c) ==> {
        &&& cs[c].shadow_space.deferred == spaces[c]@.deferred
        &&& cs[c].shadow_space.allocs.dom().subset_of(spaces[c]@.allocs.dom())
    }
}

/// Storing shadow spaces leaves the contracts registered, and each shadow space either as it was or
/// replaced by the updated one.
pub proof fn lemma_spaces_shape(cs: Map<Seq<u8>, CMContractBodyView>, keys: Seq<Key>, spaces: Map<Seq<u8>, ShadowSpace>)
    requires
        spaces_stored(cs, keys, spaces) is Ok,
    ensures
        spaces_stored(cs, keys, spaces)->Ok_0.dom() == cs.dom(),
        forall|x: Seq<u8>| #[trigger] cs.dom().contains(x) ==> {
            let r = spaces_stored(cs, keys, spaces)->Ok_0;
            r[x].shadow_space == cs[x].shadow_space || r[x].shadow_space == spaces[x]@
        },
    decreases keys.len(),
{
    if keys.len() > 0 {
        let p = keys.drop_last();
        assert(spaces_stored(cs, p, spaces) is Ok);
        lemma_spaces_shape(cs, p, spaces);
        let r = spaces_stored(cs, p, spaces)->Ok_0;
        assert(spaces_stored(cs, keys, spaces) == space_step(spaces)(r, keys.last()));
        assert(spaces_stored(cs, keys, spaces)->Ok_0.dom() =~= cs.dom());
    }
}

/// The writes of shadow spaces that fit the stored ones give the contracts with those spaces stored.
pub proof fn lemma_spaces_written(cs: Map<Seq<u8>, CMContractBodyView>, keys: Seq<Key>, spaces: Map<Seq<u8>, ShadowSpace>)
    requires
        spaces_stored(cs, keys, spaces) is Ok,
        forall|i: int| 0 <= i < keys.len() ==> space_fits(cs, (#[trigger] keys[i])@, spaces),
    ensures
        contracts_written(cs, space_ops(keys, spaces)) == spaces_stored(cs, keys, spaces)->Ok_0,
    decreases keys.len(),
{
    if keys.len() > 0 {
        let p = keys.drop_last();
        let c = keys.last();
        assert(spaces_stored(cs, p, spaces) is Ok);
        assert forall|i: int| 0 <= i < p.len() implies space_fits(cs, (#[trigger] p[i])@, spaces) by {
            assert(p[i] == keys[i]);
        }
        lemma_spaces_written(cs, p, spaces);
        lemma_spaces_shape(cs, p, spaces);
        lemma_contracts_written_concat(cs, ops_fold(p, space_op(spaces)), space_op(spaces)(c));
        let r = spaces_stored(cs, p, spaces)->Ok_0;
        assert(space_fits(cs, keys[keys.len() - 1]@, spaces));
        assert(r.dom().contains(c@));
        let e = spaces[c@];
        let w = space_op(spaces)(c);
        let aw = alloc_ops(c, e.allocs.raw_keys(), e.allocs@);
        assert(w.drop_last() =~= aw);
        lemma_alloc_ops_written(r, c, e.allocs.raw_keys(), e.allocs@);
        lemma_allocs_put(r[c@].shadow_space.allocs, e.allocs.raw_keys(), e.allocs@);
        e.allocs.lemma_dom_keys();
        let put = allocs_put(r[c@].shadow_space.allocs, e.allocs.raw_keys(), e.allocs@);
        assert(r[c@].shadow_space.allocs.dom().subset_of(e@.allocs.dom()));
        assert(e@.allocs == e.allocs@);
        assert forall|x: Seq<u8>| #[trigger] put.dom().contains(x) <==> e@.allocs.dom().contains(x) by {
            assert(key_views(e.allocs.raw_keys()) == e.allocs.key_seq());
        }
        assert forall|x: Seq<u8>| #[trigger] put.dom().contains(x) implies put[x] == e@.allocs[x] by {
            assert(key_views(e.allocs.raw_keys()) == e.allocs.key_seq());
        }
        assert(put =~= e@.allocs);
        assert(r[c@].shadow_space.deferred == e@.deferred);
        let r1 = contracts_written(r, aw);
        assert(contracts_written(r, w) == contract_write(r1, CMDiskOp::PutContractAllocsSum(c, e.allocs_sum)));
        assert(contracts_written(r, w) =~= r.insert(c@, CMContractBodyView { shadow_space: e@, ..r[c@] }));
        assert(spaces_stored(cs, keys, spaces) == space_step(spaces)(r, c));
    } else {
        assert(space_ops(keys, spaces) =~= Seq::<CMDiskOp>::empty());
    }
}

/// The deletions of a contract's listed allocations give its allocations with them removed.
pub proof fn lemma_remove_ops_written(cs: Map<Seq<u8>, CMContractBodyView>, c: Key, list: Seq<Key>)
    requires
        cs.dom().contains(c@),
    ensures
        contracts_written(cs, remove_ops(c, list))
            == cs.insert(c@, with_allocs(cs[c@], accounts_removed(cs[c@].shadow_space.allocs, list))),
    decreases list.len(),
{
    if list.len() > 0 {
        let p = list.drop_last();
        let a = list.last();
        let allocs = cs[c@].shadow_space.allocs;
        lemma_remove_ops_written(cs, c, p);
        lemma_contracts_written_concat(cs, ops_fold(p, remove_op(c)), remove_op(c)(a));
        let r = contracts_written(cs, remove_ops(c, p));
        let w = remove_op(c)(a);
        assert(w.drop_last() =~= Seq::<CMDiskOp>::empty());
        assert(contracts_written(r, w.drop_last()) == r);
        assert(accounts_removed(allocs, list) == accounts_removed(allocs, p).remove(a@));
        assert(contracts_written(cs, remove_ops(c, list))
            =~= cs.insert(c@, with_allocs(cs[c@], accounts_removed(allocs, list))));
    } else {
        assert(remove_ops(c, list) =~= Seq::<CMDiskOp>::empty());
        assert(cs.insert(c@, with_allocs(cs[c@], cs[c@].shadow_space.allocs)) =~= cs);
    }
}

/// The deletions of deallocated accounts give the contracts with them removed.
pub proof fn lemma_deallocs_written(cs: Map<Seq<u8>, CMContractBodyView>, keys: Seq<Key>, lists: Map<Seq<u8>, Vec<Key>>)
    requires
        deallocs_stored(cs, keys, lists) is Ok,
    ensures
        contracts_written(cs, dealloc_ops(keys, lists)) == deallocs_stored(cs, keys, lists)->Ok_0,
    decreases keys.len(),
{
    if keys.len() > 0 {
        let p = keys.drop_last();
        let c = keys.last();
        assert(deallocs_stored(cs, p, lists) is Ok);
        lemma_deallocs_written(cs, p, lists);
        lemma_contracts_written_concat(cs, ops_fold(p, dealloc_op(lists)), dealloc_op(lists)(c));
        let r = deallocs_stored(cs, p, lists)->Ok_0;
        assert(deallocs_stored(cs, keys, lists) == dealloc_step(lists)(r, c));
        assert(r.dom().contains(c@));
        lemma_remove_ops_written(r, c, lists[c@]@);
        let removed = accounts_removed(r[c@].shadow_space.allocs, lists[c@]@);
        assert(with_allocs(r[c@], removed) == CMContractBodyView {
            shadow_space: ShadowSpaceView { allocs: removed, ..r[c@].shadow_space },
            ..r[c@]
        });
    } else {
        assert(dealloc_ops(keys, lists) =~= Seq::<CMDiskOp>::empty());
    }
}

/// The writes that applying changes produces, each to an account tree or each to a contract tree,
/// segment by segment.
proof fn lemma_apply_ops_kinds(d: CMDelta, d5: CMDelta)
    ensures
        forall|i: int| 0 <= i < new_account_ops(d.new_accounts_to_register.raw_keys(), d.new_accounts_to_register@).len()
            ==> !is_contract_op(#[trigger] new_account_ops(d.new_accounts_to_register.raw_keys(), d.new_accounts_to_register@)[i]),
        forall|i: int| 0 <= i < new_contract_ops(d.new_contracts_to_register.raw_keys(), d.new_contracts_to_register@).len()
            ==> is_contract_op(#[trigger] new_contract_ops(d.new_contracts_to_register.raw_keys(), d.new_contracts_to_register@)[i]),
        forall|i: int| 0 <= i < account_balance_ops(d.updated_account_balances.raw_keys(), d.updated_account_balances@).len()
            ==> !is_contract_op(#[trigger] account_balance_ops(d.updated_account_balances.raw_keys(), d.updated_account_balances@)[i]),
        forall|i: int| 0 <= i < contract_balance_ops(d.updated_contract_balances.raw_keys(), d.updated_contract_balances@).len()
            ==> is_contract_op(#[trigger] contract_balance_ops(d.updated_contract_balances.raw_keys(), d.updated_contract_balances@)[i]),
        forall|i: int| 0 <= i < global_sum_ops(d5.updated_shadow_allocs_sums.raw_keys(), d5.updated_shadow_allocs_sums@).len()
            ==> !is_contract_op(#[trigger] global_sum_ops(d5.updated_shadow_allocs_sums.raw_keys(), d5.updated_shadow_allocs_sums@)[i]),
        forall|i: int| 0 <= i < space_ops(d5.updated_shadow_spaces.raw_keys(), d5.updated_shadow_spaces@).len()
            ==> is_contract_op(#[trigger] space_ops(d5.updated_shadow_spaces.raw_keys(), d5.updated_shadow_spaces@)[i]),
        forall|i: int| 0 <= i < dealloc_ops(d5.deallocs_list.raw_keys(), d5.deallocs_list@).len()
            ==> is_contract_op(#[trigger] dealloc_ops(d5.deallocs_list.raw_keys(), d5.deallocs_list@)[i]),
{
    let acc = |op: CMDiskOp| !is_contract_op(op);
    let con = |op: CMDiskOp| is_contract_op(op);
    let m1 = d.new_accounts_to_register@;
    assert forall|k: Key, i: int| 0 <= i < new_account_op(m1)(k).len() implies acc(#[trigger] new_account_op(m1)(k)[i]) by {
        assert(i == 0 || i == 1);
    }
    lemma_fold_all(d.new_accounts_to_register.raw_keys(), new_account_op(m1), acc);
    let m2 = d.new_contracts_to_register@;
    assert forall|k: Key, i: int| 0 <= i < new_contract_op(m2)(k).len() implies con(#[trigger] new_contract_op(m2)(k)[i]) by {
        assert(i == 0 || i == 1);
    }
    lemma_fold_all(d.new_contracts_to_register.raw_keys(), new_contract_op(m2), con);
    let m3 = d.updated_account_balances@;
    assert forall|k: Key, i: int| 0 <= i < account_balance_op(m3)(k).len() implies acc(#[trigger] account_balance_op(m3)(k)[i]) by {}
    lemma_fold_all(d.updated_account_balances.raw_keys(), account_balance_op(m3), acc);
    let m4 = d.updated_contract_balances@;
    assert forall|k: Key, i: int| 0 <= i < contract_balance_op(m4)(k).len() implies con(#[trigger] contract_balance_op(m4)(k)[i]) by {}
    lemma_fold_all(d.updated_contract_balances.raw_keys(), contract_balance_op(m4), con);
    let m5 = d5.updated_shadow_allocs_sums@;
    assert forall|k: Key, i: int| 0 <= i < global_sum_op(m5)(k).len() implies acc(#[trigger] global_sum_op(m5)(k)[i]) by {}
    lemma_fold_all(d5.updated_shadow_allocs_sums.raw_keys(), global_sum_op(m5), acc);
    let sp = d5.updated_shadow_spaces@;
    assert forall|c: Key, i: int| 0 <= i < space_op(sp)(c).len() implies con(#[trigger] space_op(sp)(c)[i]) by {
        let mm = sp[c@].allocs@;
        assert forall|a: Key, j: int| 0 <= j < alloc_op(c, mm)(a).len() implies con(#[trigger] alloc_op(c, mm)(a)[j]) by {}
        lemma_fold_all(sp[c@].allocs.raw_keys(), alloc_op(c, mm), con);
        let aw = alloc_ops(c, sp[c@].allocs.raw_keys(), mm);
        if i < aw.len() {
            assert(space_op(sp)(c)[i] == aw[i]);
        }
    }
    lemma_fold_all(d5.updated_shadow_spaces.raw_keys(), space_op(sp), con);
    let ls = d5.deallocs_list@;
    assert forall|c: Key, i: int| 0 <= i < dealloc_op(ls)(c).len() implies con(#[trigger] dealloc_op(ls)(c)[i]) by {
        assert forall|a: Key, j: int| 0 <= j < remove_op(c)(a).len() implies con(#[trigger] remove_op(c)(a)[j]) by {}
        lemma_fold_all(ls[c@]@, remove_op(c), con);
    }
    lemma_fold_all(d5.deallocs_list.raw_keys(), dealloc_op(ls), con);
}

/// When changes are applied successfully, making the writes they produce over the stored account
/// and contract bodies gives the new permanent bodies: the store holds what the coin manager holds.
/// For contracts this asks what the coin manager's own operations keep: no new contract is already
/// registered, and a stored shadow space that is updated has no deferred change and no allocation
/// the updated one lacks.
pub proof fn law_apply_writes_match_state(
    old_accounts: Map<Seq<u8>, CMAccountBody>,
    old_contracts: Map<Seq<u8>, CMContractBodyView>,
    d: CMDelta,
    new_accounts: Map<Seq<u8>, CMAccountBody>,
    new_contracts: Map<Seq<u8>, CMContractBodyView>,
    d5: CMDelta,
    produced: Seq<CMDiskOp>,
)
    requires
        apply_changes_outcome(old_accounts, old_contracts, d, new_accounts, new_contracts, d5, produced, Ok(())),
        forall|c: Seq<u8>| #[trigger] d@.new_contracts_to_register.dom().contains(c) ==> !old_contracts.dom().contains(c),
        forall|c: Seq<u8>| #[trigger] d@.updated_shadow_spaces.dom().contains(c) && old_contracts.dom().contains(c) ==> {
            &&& old_contracts[c].shadow_space.deferred == 0
            &&& old_contracts[c].shadow_space.allocs.dom().subset_of(d@.updated_shadow_spaces[c].allocs.dom())
        },
    ensures
        accounts_written(old_accounts, produced) == new_accounts,
        contracts_written(old_contracts, produced) == new_contracts,
{
    let s1 = new_account_ops(d.new_accounts_to_register.raw_keys(), d.new_accounts_to_register@);
    let s2 = new_contract_ops(d.new_contracts_to_register.raw_keys(), d.new_contracts_to_register@);
    let s3 = account_balance_ops(d.updated_account_balances.raw_keys(), d.updated_account_balances@);
    let s4 = contract_balance_ops(d.updated_contract_balances.raw_keys(), d.updated_contract_balances@);
    let s5 = global_sum_ops(d5.updated_shadow_allocs_sums.raw_keys(), d5.updated_shadow_allocs_sums@);
    let s6 = space_ops(d5.updated_shadow_spaces.raw_keys(), d5.updated_shadow_spaces@);
    let s7 = dealloc_ops(d5.deallocs_list.raw_keys(), d5.deallocs_list@);
    assert(produced == all_apply_ops(d, d5));
    assert(produced == s1 + s2 + s3 + s4 + s5 + s6 + s7);
    lemma_apply_ops_kinds(d, d5);

    let a1 = accounts_with_new(old_accounts, d);
    let c2 = contracts_with_new(old_contracts, d);
    let a3 = balances_stored(a1, d.updated_account_balances.raw_keys(), d.updated_account_balances@)->Ok_0;
    let c4 = contract_balances_stored(c2, d.updated_contract_balances.raw_keys(), d.updated_contract_balances@)->Ok_0;
    let a6 = global_sums_stored(a3, d5.updated_shadow_allocs_sums.raw_keys(), d5.updated_shadow_allocs_sums@)->Ok_0;
    let c7 = spaces_stored(c4, d5.updated_shadow_spaces.raw_keys(), d5.updated_shadow_spaces@)->Ok_0;

    // Accounts.
    lemma_accounts_written_concat(old_accounts, s1 + s2 + s3 + s4 + s5 + s6, s7);
    lemma_accounts_written_concat(old_accounts, s1 + s2 + s3 + s4 + s5, s6);
    lemma_accounts_written_concat(old_accounts, s1 + s2 + s3 + s4, s5);
    lemma_accounts_written_concat(old_accounts, s1 + s2 + s3, s4);
    lemma_accounts_written_concat(old_accounts, s1 + s2, s3);
    lemma_accounts_written_concat(old_accounts, s1, s2);
    lemma_new_accounts_written(old_accounts, d.new_accounts_to_register.raw_keys(), d.new_accounts_to_register@);
    lemma_contract_ops_keep_accounts(a1, s2);
    lemma_balances_written(a1, d.updated_account_balances.raw_keys(), d.updated_account_balances@);
    lemma_contract_ops_keep_accounts(a3, s4);
    lemma_global_sums_written(a3, d5.updated_shadow_allocs_sums.raw_keys(), d5.updated_shadow_allocs_sums@);
    lemma_contract_ops_keep_accounts(a6, s6);
    lemma_contract_ops_keep_accounts(a6, s7);

    // Contracts.
    lemma_contracts_written_concat(old_contracts, s1 + s2 + s3 + s4 + s5 + s6, s7);
    lemma_contracts_written_concat(old_contracts, s1 + s2 + s3 + s4 + s5, s6);
    lemma_contracts_written_concat(old_contracts, s1 + s2 + s3 + s4, s5);
    lemma_contracts_written_concat(old_contracts, s1 + s2 + s3, s4);
    lemma_contracts_written_concat(old_contracts, s1 + s2, s3);
    lemma_contracts_written_concat(old_contracts, s1, s2);
    lemma_account_ops_keep_contracts(old_contracts, s1);
    let nk = d.new_contracts_to_register.raw_keys();
    d.new_contracts_to_register.lemma_dom_keys();
    assert forall|i: int| 0 <= i < nk.len() implies !old_contracts.dom().contains(#[trigger] nk[i]@) by {
        assert(d.new_contracts_to_register.key_seq().len() == nk.len());
        assert(d.new_contracts_to_register.key_seq()[i] == nk[i]@);
        assert(d.new_contracts_to_register.key_seq().contains(nk[i]@));
        assert(d@.new_contracts_to_register.dom().contains(nk[i]@));
    }
    lemma_new_contracts_written(old_contracts, nk, d.new_contracts_to_register@);
    lemma_register_contracts_shape(old_contracts, nk, d.new_contracts_to_register@);
    lemma_account_ops_keep_contracts(c2, s3);
    lemma_contract_balances_written(c2, d.updated_contract_balances.raw_keys(), d.updated_contract_balances@);
    lemma_contract_balances_shape(c2, d.updated_contract_balances.raw_keys(), d.updated_contract_balances@);
    lemma_account_ops_keep_contracts(c4, s5);
    let sk = d5.updated_shadow_spaces.raw_keys();
    let sp = d5.updated_shadow_spaces@;
    d5.updated_shadow_spaces.lemma_dom_keys();
    assert forall|i: int| 0 <= i < sk.len() implies space_fits(c4, (#[trigger] sk[i])@, sp) by {
        let c = sk[i]@;
        assert(d5.updated_shadow_spaces.key_seq().len() == sk.len());
        assert(d5.updated_shadow_spaces.key_seq()[i] == c);
        assert(d5.updated_shadow_spaces.key_seq().contains(c));
        assert(sp.dom().contains(c));
        assert(d5@.updated_shadow_spaces.dom().contains(c));
        assert(d@.updated_shadow_spaces.dom().contains(c));
        assert(sp[c]@ == d5@.updated_shadow_spaces[c]);
        assert(d5@.updated_shadow_spaces[c] == materialized(d@.updated_shadow_spaces[c]));
        if c4.dom().contains(c) {
            assert(c4[c].shadow_space == c2[c].shadow_space);
            if old_contracts.dom().contains(c) {
                if key_views(nk).contains(c) {
                    let j = choose|j: int| 0 <= j < key_views(nk).len() && key_views(nk)[j] == c;
                    assert(!old_contracts.dom().contains(nk[j]@));
                }
                assert(kept_contract(c2, old_contracts, c));
            } else {
                assert(c2[c].shadow_space == empty_space());
            }
        }
    }
    lemma_spaces_written(c4, sk, sp);
    lemma_deallocs_written(c7, d5.deallocs_list.raw_keys(), d5.deallocs_list@);
}

/// Deleting one contract's listed allocations leaves none of them in its stored tree and every
/// other contract's tree as it was.
pub proof fn lemma_remove_ops_clear(w: Map<Seq<u8>, CMContractBodyView>, c: Key, list: Seq<Key>)
    ensures
        ({
            let r = contracts_written(w, remove_ops(c, list));
            &&& forall|x: Seq<u8>| x != c@ ==> (#[trigger] r.dom().contains(x) <==> w.dom().contains(x))
            &&& forall|x: Seq<u8>| x != c@ && #[trigger] w.dom().contains(x) ==> r[x] == w[x]
            &&& w.dom().contains(c@) ==> r.dom().contains(c@)
            &&& forall|a: Seq<u8>| #[trigger] key_views(list).contains(a)
                ==> r.dom().contains(c@) && !r[c@].shadow_space.allocs.dom().contains(a)
        }),
    decreases list.len(),
{
    if list.len() > 0 {
        let p = list.drop_last();
        let k = list.last();
        lemma_remove_ops_clear(w, c, p);
        lemma_contracts_written_concat(w, ops_fold(p, remove_op(c)), remove_op(c)(k));
        let r0 = contracts_written(w, remove_ops(c, p));
        let op = remove_op(c)(k);
        assert(op.drop_last() =~= Seq::<CMDiskOp>::empty());
        assert(contracts_written(r0, op.drop_last()) == r0);
        assert(contracts_written(r0, op) == contract_write(r0, CMDiskOp::RemoveShadowAlloc(c, k)));
        assert forall|x: Seq<u8>| key_views(list).contains(x) <==> key_views(p).contains(x) || x == k@ by {
            assert(key_views(list) =~= key_views(p).push(k@));
            crate::keymap::lemma_push_contains(key_views(p), k@);
        }
    }
}

/// The deletions of deallocated accounts leave none of them in their contracts' stored trees,
/// whatever the trees held before.
pub proof fn lemma_dealloc_ops_clear(w: Map<Seq<u8>, CMContractBodyView>, keys: Seq<Key>, lists: Map<Seq<u8>, Vec<Key>>)
    ensures
        forall|c: Seq<u8>, a: Seq<u8>| #[trigger] key_views(keys).contains(c) && lists.dom().contains(c)
            && #[trigger] key_views(lists[c]@).contains(a) ==> {
            let r = contracts_written(w, dealloc_ops(keys, lists));
            r.dom().contains(c) && !r[c].shadow_space.allocs.dom().contains(a)
        },
    decreases keys.len(),
{
    if keys.len() > 0 {
        let p = keys.drop_last();
        let k = keys.last();
        lemma_dealloc_ops_clear(w, p, lists);
        lemma_contracts_written_concat(w, ops_fold(p, dealloc_op(lists)), dealloc_op(lists)(k));
        let r0 = contracts_written(w, dealloc_ops(p, lists));
        lemma_remove_ops_clear(r0, k, lists[k@]@);
        assert forall|x: Seq<u8>| key_views(keys).contains(x) <==> key_views(p).contains(x) || x == k@ by {
            assert(key_views(keys) =~= key_views(p).push(k@));
            crate::keymap::lemma_push_contains(key_views(p), k@);
        }
    }
}

/// Once changes are applied successfully, no deallocated account keeps an allocation in its
/// contract's stored tree: the writes made over whatever the store held delete it.
pub proof fn law_apply_clears_deallocated(
    old_accounts: Map<Seq<u8>, CMAccountBody>,
    old_contracts: Map<Seq<u8>, CMContractBodyView>,
    stored: Map<Seq<u8>, CMContractBodyView>,
    d: CMDelta,
    new_accounts: Map<Seq<u8>, CMAccountBody>,
    new_contracts: Map<Seq<u8>, CMContractBodyView>,
    d5: CMDelta,
    produced: Seq<CMDiskOp>,
)
    requires
        apply_changes_outcome(old_accounts, old_contracts, d, new_accounts, new_contracts, d5, produced, Ok(())),
    ensures
        forall|c: Seq<u8>, a: Seq<u8>| #[trigger] d@.deallocs_list.dom().contains(c) && #[trigger] d@.deallocs_list[c].contains(a) ==> {
            let r = contracts_written(stored, produced);
            &&& r.dom().contains(c) && !r[c].shadow_space.allocs.dom().contains(a)
            &&& new_contracts.dom().contains(c) && !new_contracts[c].shadow_space.allocs.dom().contains(a)
        },
{
    let s7 = dealloc_ops(d5.deallocs_list.raw_keys(), d5.deallocs_list@);
    let before = new_account_ops(d.new_accounts_to_register.raw_keys(), d.new_accounts_to_register@)
        + new_contract_ops(d.new_contracts_to_register.raw_keys(), d.new_contracts_to_register@)
        + account_balance_ops(d.updated_account_balances.raw_keys(), d.updated_account_balances@)
        + contract_balance_ops(d.updated_contract_balances.raw_keys(), d.updated_contract_balances@)
        + global_sum_ops(d5.updated_shadow_allocs_sums.raw_keys(), d5.updated_shadow_allocs_sums@)
        + space_ops(d5.updated_shadow_spaces.raw_keys(), d5.updated_shadow_spaces@);
    assert(produced == before + s7);
    lemma_contracts_written_concat(stored, before, s7);
    lemma_dealloc_ops_clear(contracts_written(stored, before), d5.deallocs_list.raw_keys(), d5.deallocs_list@);
    super::laws::law_apply_changes_persists(old_accounts, old_contracts, d, new_accounts, new_contracts, d5, produced);
    d5.deallocs_list.lemma_dom_keys();
    assert forall|c: Seq<u8>, a: Seq<u8>| #[trigger] d@.deallocs_list.dom().contains(c) && #[trigger] d@.deallocs_list[c].contains(a) implies {
        let r = contracts_written(stored, produced);
        &&& r.dom().contains(c) && !r[c].shadow_space.allocs.dom().contains(a)
        &&& new_contracts.dom().contains(c) && !new_contracts[c].shadow_space.allocs.dom().contains(a)
    } by {
        assert(d5@.deallocs_list == d@.deallocs_list);
        assert(d5.deallocs_list@.dom().contains(c) <==> d5.deallocs_list.key_seq().contains(c));
        assert(key_views(d5.deallocs_list.raw_keys()).contains(c));
        assert(d5@.deallocs_list[c] == key_views(d5.deallocs_list@[c]@));
        assert(key_views(d5.deallocs_list@[c]@).contains(a));
    }
}

/// An account tree with one more entry for a balance write (key 0x00, eight little-endian bytes)
/// reads as the write made over what the tree read before.
pub proof fn law_account_tree_balance_entry(entries: Seq<(Vec<u8>, Vec<u8>)>, e: (Vec<u8>, Vec<u8>), v: u64)
    requires
        e.0@ == seq![0u8],
        e.1@ == le_encode(v as nat, 8),
    ensures
        account_tree_body(entries.push(e)) == (CMAccountBody { balance: v, ..account_tree_body(entries) }),
{
    lemma_pow256_values();
    lemma_le_round_trip(v as nat, 8);
    assert(entries.push(e).drop_last() =~= entries);
}

/// An account tree with one more entry for a global shadow allocs sum write (key 0x01, sixteen
/// little-endian bytes) reads as the write made over what the tree read before.
pub proof fn law_account_tree_sum_entry(entries: Seq<(Vec<u8>, Vec<u8>)>, e: (Vec<u8>, Vec<u8>), s: u128)
    requires
        e.0@ == seq![1u8],
        e.1@ == le_encode(s as nat, 16),
    ensures
        account_tree_body(entries.push(e)) == (CMAccountBody { global_shadow_allocs_sum: s, ..account_tree_body(entries) }),
{
    lemma_pow256_values();
    lemma_le_round_trip(s as nat, 16);
    assert(entries.push(e).drop_last() =~= entries);
}

/// A contract tree with one more entry for a balance write (the all-zero key, eight little-endian
/// bytes) reads as the write made over what the tree read before.
pub proof fn law_contract_tree_balance_entry(entries: Seq<(Vec<u8>, Vec<u8>)>, e: (Vec<u8>, Vec<u8>), v: u64)
    requires
        e.0@ == all_bytes(32, 0),
        e.1@ == le_encode(v as nat, 8),
    ensures
        contract_tree_body(entries.push(e)) == (CMContractBodyView { balance: v, ..contract_tree_body(entries) }),
{
    lemma_pow256_values();
    lemma_le_round_trip(v as nat, 8);
    assert(entries.push(e).drop_last() =~= entries);
}

/// A contract tree with one more entry for an allocs sum write (the all-one key, eight
/// little-endian bytes) reads as the write made over what the tree read before.
pub proof fn law_contract_tree_sum_entry(entries: Seq<(Vec<u8>, Vec<u8>)>, e: (Vec<u8>, Vec<u8>), v: u64)
    requires
        e.0@ == all_bytes(32, 1),
        e.1@ == le_encode(v as nat, 8),
    ensures
        ({
            let b = contract_tree_body(entries);
            contract_tree_body(entries.push(e)) == (CMContractBodyView {
                shadow_space: ShadowSpaceView { allocs_sum: v, ..b.shadow_space },
                ..b
            })
        }),
{
    lemma_pow256_values();
    lemma_le_round_trip(v as nat, 8);
    assert(entries.push(e).drop_last() =~= entries);
    assert(all_bytes(32, 1) != all_bytes(32, 0)) by {
        assert(all_bytes(32, 1)[0] != all_bytes(32, 0)[0]);
    }
}

/// A contract tree with one more entry for an allocation write (the account key, which is neither
/// special key, and sixteen little-endian bytes) reads as the write made over what the tree read
/// before.
pub proof fn law_contract_tree_alloc_entry(entries: Seq<(Vec<u8>, Vec<u8>)>, e: (Vec<u8>, Vec<u8>), a: Key, v: u128)
    requires
        e.0@ == a@,
        a@ != all_bytes(32, 0),
        a@ != all_bytes(32, 1),
        e.1@ == le_encode(v as nat, 16),
    ensures
        contract_tree_body(entries.push(e)) == with_allocs(
            contract_tree_body(entries),
            contract_tree_body(entries).shadow_space.allocs.insert(a@, v),
        ),
{
    lemma_pow256_values();
    lemma_le_round_trip(v as nat, 16);
    assert(entries.push(e).drop_last() =~= entries);
}

} // verus!
