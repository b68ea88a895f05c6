use super::account_coin_holder::accounts_registered;
use super::apply::{
    account_balance_op, account_balance_step, account_sum_op, account_sum_step, alloc_op, contract_balance_op,
    contract_balance_step, dealloc_op, dealloc_step, register_account_op, register_account_step,
    register_contract_op, register_contract_step, remove_op, accounts_removed, space_op, space_step, CHDiskOp,
};
use super::bodies::{CHAccountBodyView, CHContractBodyView, ShadowSpace, ShadowSpaceView};
use super::coin_holder_specs::{holder_apply_ops, holder_apply_outcome};
use super::contract_specs::{contract_apply_ops, contract_apply_outcome, contracts_registered};
use super::deltas::{lists_view, spaces_view, AccountDelta, CHContractDelta};
use crate::fold::{ops_fold, step_fold};
use crate::keymap::{key_views, Key};
use vstd::prelude::*;

verus! {

/// The body the store holds for an account in its tree, zero where it holds none.
pub open spec fn stored_account(accounts: Map<Seq<u8>, CHAccountBodyView>, k: Seq<u8>) -> CHAccountBodyView {
    if accounts.dom().contains(k) {
        accounts[k]
    } else {
        CHAccountBodyView { balance: 0, shadow_allocs_sum: 0 }
    }
}

/// The account bodies the store's account trees hold once one write is made: a balance or a shadow
/// allocs sum replaces that value in its account's tree. A registration is written to the root of
/// the account store, not to a tree, and the other writes go to contract trees: they leave them.
pub open spec fn account_write(accounts: Map<Seq<u8>, CHAccountBodyView>, op: CHDiskOp) -> Map<Seq<u8>, CHAccountBodyView> {
    match op {
        CHDiskOp::PutAccountBalance(k, v) => accounts.insert(
            k@,
            CHAccountBodyView { balance: v, ..stored_account(accounts, k@) },
        ),
        CHDiskOp::PutAccountShadowAllocsSum(k, s) => accounts.insert(
            k@,
            CHAccountBodyView { shadow_allocs_sum: s, ..stored_account(accounts, k@) },
        ),
        _ => accounts,
    }
}

/// The account bodies the store's account trees hold once the writes are made, in order.
pub open spec fn accounts_written(accounts: Map<Seq<u8>, CHAccountBodyView>, ops: Seq<CHDiskOp>) -> Map<Seq<u8>, CHAccountBodyView>
    decreases ops.len(),
{
    if ops.len() == 0 {
        accounts
    } else {
        account_write(accounts_written(accounts, ops.drop_last()), ops.last())
    }
}

/// A write that leaves the account trees.
pub open spec fn is_not_account_tree_op(op: CHDiskOp) -> bool {
    !(op is PutAccountBalance) && !(op is PutAccountShadowAllocsSum)
}

/// The permanent accounts match the account trees: they are the accounts the trees hold and the
/// accounts registered without a tree yet (with zero values), and each reads as its tree does.
pub open spec fn mirrors(mem: Map<Seq<u8>, CHAccountBodyView>, trees: Map<Seq<u8>, CHAccountBodyView>, fresh: Set<Seq<u8>>) -> bool {
    &&& mem.dom() == trees.dom().union(fresh)
    &&& forall|x: Seq<u8>| #[trigger] mem.dom().contains(x) ==> mem[x] == stored_account(trees, x)
}

/// Writes made one after the other.
pub proof fn lemma_accounts_written_concat(a: Map<Seq<u8>, CHAccountBodyView>, s1: Seq<CHDiskOp>, s2: Seq<CHDiskOp>)
    ensures
        accounts_written(a, s1 + s2) == accounts_written(accounts_written(a, s1), s2),
    decreases s2.len(),
{
    if s2.len() == 0 {
        assert(s1 + s2 =~= s1);
    } else {
        lemma_accounts_written_concat(a, s1, s2.drop_last());
        assert((s1 + s2).drop_last() =~= s1 + s2.drop_last());
        assert((s1 + s2).last() == s2.last());
    }
}

/// Writes that leave the account trees leave the account bodies.
pub proof fn lemma_other_ops_keep_accounts(a: Map<Seq<u8>, CHAccountBodyView>, s: Seq<CHDiskOp>)
    requires
        forall|i: int| 0 <= i < s.len() ==> is_not_account_tree_op(#[trigger] s[i]),
    ensures
        accounts_written(a, s) == a,
    decreases s.len(),
{
    if s.len() > 0 {
        assert(is_not_account_tree_op(s[s.len() - 1]));
        lemma_other_ops_keep_accounts(a, s.drop_last());
    }
}

/// Every write of a fold satisfies what every write of each key satisfies.
pub proof fn lemma_fold_all<T>(keys: Seq<Key>, f: spec_fn(Key) -> Seq<T>, p: spec_fn(T) -> bool)
    requires
        forall|k: Key, i: int| 0 <= i < f(k).len() ==> p(#[trigger] f(k)[i]),
    ensures
        forall|i: int| 0 <= i < ops_fold(keys, f).len() ==> p(#[trigger] ops_fold(keys, f)[i]),
    decreases keys.len(),
{
    if keys.len() > 0 {
        lemma_fold_all(keys.drop_last(), f, p);
        let a = ops_fold(keys.drop_last(), f);
        let b = f(keys.last());
        assert forall|i: int| 0 <= i < (a + b).len() implies p(#[trigger] (a + b)[i]) by {
            if i < a.len() {
                assert((a + b)[i] == a[i]);
            } else {
                assert((a + b)[i] == b[i - a.len()]);
            }
        }
    }
}

/// Registering accounts not registered yet: the permanent accounts mirror the trees, with the new
/// accounts registered without a tree.
pub proof fn lemma_registered_mirror(a: Map<Seq<u8>, CHAccountBodyView>, keys: Seq<Key>)
    requires
        forall|i: int| 0 <= i < keys.len() ==> !a.dom().contains(#[trigger] keys[i]@),
    ensures
        step_fold(a, keys, register_account_step()) is Ok,
        mirrors(step_fold(a, keys, register_account_step())->Ok_0, a, key_views(keys).to_set()),
    decreases keys.len(),
{
    if keys.len() > 0 {
        let p = keys.drop_last();
        let k = keys.last();
        assert forall|i: int| 0 <= i < p.len() implies !a.dom().contains(#[trigger] p[i]@) by {
            assert(p[i] == keys[i]);
        }
        lemma_registered_mirror(a, p);
        assert(!a.dom().contains(keys[keys.len() - 1]@));
        assert(key_views(keys) =~= key_views(p).push(k@));
        assert(key_views(keys).to_set() =~= key_views(p).to_set().insert(k@)) by {
            assert forall|x: Seq<u8>| key_views(keys).contains(x) <==> key_views(p).contains(x) || x == k@ by {
                crate::keymap::lemma_push_contains(key_views(p), k@);
            }
        }
        let r = step_fold(a, p, register_account_step())->Ok_0;
        let r2 = step_fold(a, keys, register_account_step())->Ok_0;
        assert(r2 == r.insert(k@, CHAccountBodyView { balance: 0, shadow_allocs_sum: 0 }));
        assert(r2.dom() =~= a.dom().union(key_views(keys).to_set()));
    } else {
        assert(key_views(keys).to_set() =~= Set::<Seq<u8>>::empty());
        assert(a.dom().union(Set::<Seq<u8>>::empty()) =~= a.dom());
    }
}

/// Storing balances keeps the accounts mirroring the trees the balance writes give; every account
/// written has a tree.
pub proof fn lemma_balances_mirror(
    mem: Map<Seq<u8>, CHAccountBodyView>,
    trees: Map<Seq<u8>, CHAccountBodyView>,
    fresh: Set<Seq<u8>>,
    keys: Seq<Key>,
    m: Map<Seq<u8>, u64>,
)
    requires
        mirrors(mem, trees, fresh),
        step_fold(mem, keys, account_balance_step(m)) is Ok,
    ensures
        mirrors(step_fold(mem, keys, account_balance_step(m))->Ok_0, accounts_written(trees, ops_fold(keys, account_balance_op(m))), fresh),
        forall|x: Seq<u8>| #[trigger] accounts_written(trees, ops_fold(keys, account_balance_op(m))).dom().contains(x)
            <==> trees.dom().contains(x) || key_views(keys).contains(x),
    decreases keys.len(),
{
    if keys.len() > 0 {
        let p = keys.drop_last();
        let k = keys.last();
        assert(step_fold(mem, p, account_balance_step(m)) is Ok);
        lemma_balances_mirror(mem, trees, fresh, p, m);
        lemma_accounts_written_concat(trees, ops_fold(p, account_balance_op(m)), account_balance_op(m)(k));
        let r = step_fold(mem, p, account_balance_step(m))->Ok_0;
        let t = accounts_written(trees, ops_fold(p, account_balance_op(m)));
        let w = account_balance_op(m)(k);
        assert(w.drop_last() =~= Seq::<CHDiskOp>::empty());
        assert(accounts_written(t, w.drop_last()) == t);
        let t2 = accounts_written(t, w);
        assert(t2 == t.insert(k@, CHAccountBodyView { balance: m[k@], ..stored_account(t, k@) }));
        assert(r.dom().contains(k@));
        let r2 = step_fold(mem, keys, account_balance_step(m))->Ok_0;
        assert(r2 == r.insert(k@, CHAccountBodyView { balance: m[k@], ..r[k@] }));
        assert(key_views(keys) =~= key_views(p).push(k@));
        assert forall|x: Seq<u8>| key_views(keys).contains(x) <==> key_views(p).contains(x) || x == k@ by {
            crate::keymap::lemma_push_contains(key_views(p), k@);
        }
        assert(r2.dom() =~= t2.dom().union(fresh));
        assert forall|x: Seq<u8>| #[trigger] r2.dom().contains(x) implies r2[x] == stored_account(t2, x) by {
            if x != k@ {
                assert(r.dom().contains(x));
            }
        }
    } else {
        assert(ops_fold(keys, account_balance_op(m)) =~= Seq::<CHDiskOp>::empty());
        assert(key_views(keys) =~= Seq::<Seq<u8>>::empty());
    }
}

/// Storing shadow allocs sums keeps the accounts mirroring the trees the sum writes give; every
/// account written has a tree.
pub proof fn lemma_sums_mirror(
    mem: Map<Seq<u8>, CHAccountBodyView>,
    trees: Map<Seq<u8>, CHAccountBodyView>,
    fresh: Set<Seq<u8>>,
    keys: Seq<Key>,
    m: Map<Seq<u8>, u128>,
)
    requires
        mirrors(mem, trees, fresh),
        step_fold(mem, keys, account_sum_step(m)) is Ok,
    ensures
        mirrors(step_fold(mem, keys, account_sum_step(m))->Ok_0, accounts_written(trees, ops_fold(keys, account_sum_op(m))), fresh),
        forall|x: Seq<u8>| #[trigger] accounts_written(trees, ops_fold(keys, account_sum_op(m))).dom().contains(x)
            <==> trees.dom().contains(x) || key_views(keys).contains(x),
    decreases keys.len(),
{
    if keys.len() > 0 {
        let p = keys.drop_last();
        let k = keys.last();
        assert(step_fold(mem, p, account_sum_step(m)) is Ok);
        lemma_sums_mirror(mem, trees, fresh, p, m);
        lemma_accounts_written_concat(trees, ops_fold(p, account_sum_op(m)), account_sum_op(m)(k));
        let r = step_fold(mem, p, account_sum_step(m))->Ok_0;
        let t = accounts_written(trees, ops_fold(p, account_sum_op(m)));
        let w = account_sum_op(m)(k);
        assert(w.drop_last() =~= Seq::<CHDiskOp>::empty());
        assert(accounts_written(t, w.drop_last()) == t);
        let t2 = accounts_written(t, w);
        assert(t2 == t.insert(k@, CHAccountBodyView { shadow_allocs_sum: m[k@], ..stored_account(t, k@) }));
        assert(r.dom().contains(k@));
        let r2 = step_fold(mem, keys, account_sum_step(m))->Ok_0;
        assert(r2 == r.insert(k@, CHAccountBodyView { shadow_allocs_sum: m[k@], ..r[k@] }));
        assert(key_views(keys) =~= key_views(p).push(k@));
        assert forall|x: Seq<u8>| key_views(keys).contains(x) <==> key_views(p).contains(x) || x == k@ by {
            crate::keymap::lemma_push_contains(key_views(p), k@);
        }
        assert(r2.dom() =~= t2.dom().union(fresh));
        assert forall|x: Seq<u8>| #[trigger] r2.dom().contains(x) implies r2[x] == stored_account(t2, x) by {
            if x != k@ {
                assert(r.dom().contains(x));
            }
        }
    } else {
        assert(ops_fold(keys, account_sum_op(m)) =~= Seq::<CHDiskOp>::empty());
        assert(key_views(keys) =~= Seq::<Seq<u8>>::empty());
    }
}

/// The body the store holds for a contract in its tree, zero balance and an empty shadow space
/// where it holds none.
pub open spec fn stored_contract(contracts: Map<Seq<u8>, CHContractBodyView>, c: Seq<u8>) -> CHContractBodyView {
    if contracts.dom().contains(c) {
        contracts[c]
    } else {
        CHContractBodyView { balance: 0, shadow_space: ShadowSpaceView::empty() }
    }
}

/// A contract body with its shadow space allocations replaced.
pub open spec fn with_allocs(b: CHContractBodyView, allocs: Map<Seq<u8>, u128>) -> CHContractBodyView {
    CHContractBodyView { shadow_space: ShadowSpaceView { allocs, ..b.shadow_space }, ..b }
}

/// The contract bodies the store's contract trees hold once one write is made: a balance, an allocs
/// sum or an allocation replaces that value in its contract's tree, a deletion removes the
/// allocation; writes for accounts leave them.
pub open spec fn contract_write(contracts: Map<Seq<u8>, CHContractBodyView>, op: CHDiskOp) -> Map<Seq<u8>, CHContractBodyView> {
    match op {
        CHDiskOp::PutContractBalance(c, v) => contracts.insert(
            c@,
            CHContractBodyView { balance: v, ..stored_contract(contracts, c@) },
        ),
        CHDiskOp::PutContractAllocsSum(c, v) => {
            let b = stored_contract(contracts, c@);
            contracts.insert(c@, CHContractBodyView { shadow_space: ShadowSpaceView { allocs_sum: v, ..b.shadow_space }, ..b })
        },
        CHDiskOp::PutShadowAlloc(c, a, v) => {
            let b = stored_contract(contracts, c@);
            contracts.insert(c@, with_allocs(b, b.shadow_space.allocs.insert(a@, v)))
        },
        CHDiskOp::RemoveShadowAlloc(c, a) => {
            let b = stored_contract(contracts, c@);
            contracts.insert(c@, with_allocs(b, b.shadow_space.allocs.remove(a@)))
        },
        _ => contracts,
    }
}

/// The contract bodies the store's contract trees hold once the writes are made, in order.
pub open spec fn contracts_written(contracts: Map<Seq<u8>, CHContractBodyView>, ops: Seq<CHDiskOp>) -> Map<Seq<u8>, CHContractBodyView>
    decreases ops.len(),
{
    if ops.len() == 0 {
        contracts
    } else {
        contract_write(contracts_written(contracts, ops.drop_last()), ops.last())
    }
}

/// A write for accounts.
pub open spec fn is_account_side_op(op: CHDiskOp) -> bool {
    op is RegisterAccount || op is PutAccountBalance || op is PutAccountShadowAllocsSum
}

/// Writes made one after the other.
pub proof fn lemma_contracts_written_concat(c: Map<Seq<u8>, CHContractBodyView>, s1: Seq<CHDiskOp>, s2: Seq<CHDiskOp>)
    ensures
        contracts_written(c, s1 + s2) == contracts_written(contracts_written(c, s1), s2),
    decreases s2.len(),
{
    if s2.len() == 0 {
        assert(s1 + s2 =~= s1);
    } else {
        lemma_contracts_written_concat(c, s1, s2.drop_last());
        assert((s1 + s2).drop_last() =~= s1 + s2.drop_last());
        assert((s1 + s2).last() == s2.last());
    }
}

/// Writes for accounts leave the contract bodies.
pub proof fn lemma_account_ops_keep_contracts(c: Map<Seq<u8>, CHContractBodyView>, s: Seq<CHDiskOp>)
    requires
        forall|i: int| 0 <= i < s.len() ==> is_account_side_op(#[trigger] s[i]),
    ensures
        contracts_written(c, s) == c,
    decreases s.len(),
{
    if s.len() > 0 {
        assert(is_account_side_op(s[s.len() - 1]));
        lemma_account_ops_keep_contracts(c, s.drop_last());
    }
}

/// A contract is held as it was.
pub open spec fn kept_contract(now: Map<Seq<u8>, CHContractBodyView>, before: Map<Seq<u8>, CHContractBodyView>, x: Seq<u8>) -> bool {
    now.dom().contains(x) && now[x] == before[x]
}

/// Registering contracts always succeeds; a contract registered by it that was not there before has
/// an empty shadow space, and a contract not registered by it is kept.
pub proof fn lemma_register_contracts_shape(cs: Map<Seq<u8>, CHContractBodyView>, keys: Seq<Key>)
    ensures
        step_fold(cs, keys, register_contract_step()) is Ok,
        forall|x: Seq<u8>| #[trigger] step_fold(cs, keys, register_contract_step())->Ok_0.dom().contains(x) && !cs.dom().contains(x)
            ==> step_fold(cs, keys, register_contract_step())->Ok_0[x].shadow_space == ShadowSpaceView::empty(),
        forall|x: Seq<u8>| cs.dom().contains(x) && !key_views(keys).contains(x)
            ==> #[trigger] kept_contract(step_fold(cs, keys, register_contract_step())->Ok_0, cs, x),
    decreases keys.len(),
{
    if keys.len() > 0 {
        let p = keys.drop_last();
        let k = keys.last();
        lemma_register_contracts_shape(cs, p);
        let r = step_fold(cs, p, register_contract_step())->Ok_0;
        assert(step_fold(cs, keys, register_contract_step()) == register_contract_step()(r, k));
        assert(step_fold(cs, keys, register_contract_step())->Ok_0
            == r.insert(k@, CHContractBodyView { balance: 0, shadow_space: ShadowSpaceView::empty() }));
        assert forall|x: Seq<u8>| cs.dom().contains(x) && !key_views(keys).contains(x)
            implies #[trigger] kept_contract(step_fold(cs, keys, register_contract_step())->Ok_0, cs, x) by {
            assert(key_views(keys)[keys.len() - 1] == k@);
            if key_views(p).contains(x) {
                let i = choose|i: int| 0 <= i < key_views(p).len() && key_views(p)[i] == x;
                assert(key_views(keys)[i] == x);
            }
            assert(x != k@);
            assert(kept_contract(r, cs, x));
        }
    } else {
        assert(key_views(keys) =~= Seq::<Seq<u8>>::empty());
        assert(step_fold(cs, keys, register_contract_step())->Ok_0 == cs);
    }
}

/// The writes that register contracts not registered yet give the registered contracts.
pub proof fn lemma_new_contracts_written(cs: Map<Seq<u8>, CHContractBodyView>, keys: Seq<Key>)
    requires
        forall|i: int| 0 <= i < keys.len() ==> !cs.dom().contains(#[trigger] keys[i]@),
    ensures
        contracts_written(cs, ops_fold(keys, register_contract_op())) == step_fold(cs, keys, register_contract_step())->Ok_0,
    decreases keys.len(),
{
    if keys.len() > 0 {
        let p = keys.drop_last();
        let k = keys.last();
        assert forall|i: int| 0 <= i < p.len() implies !cs.dom().contains(#[trigger] p[i]@) by {
            assert(p[i] == keys[i]);
        }
        lemma_new_contracts_written(cs, p);
        lemma_register_contracts_shape(cs, p);
        lemma_contracts_written_concat(cs, ops_fold(p, register_contract_op()), register_contract_op()(k));
        let r = step_fold(cs, p, register_contract_step())->Ok_0;
        assert(!cs.dom().contains(keys[keys.len() - 1]@));
        assert(stored_contract(r, k@).shadow_space == ShadowSpaceView::empty());
        let w = register_contract_op()(k);
        let w1 = seq![CHDiskOp::PutContractBalance(k, 0)];
        assert(w.drop_last() =~= w1);
        assert(w1.drop_last() =~= Seq::<CHDiskOp>::empty());
        assert(contracts_written(r, w1.drop_last()) == r);
        let r1 = contracts_written(r, w1);
        assert(r1 == r.insert(k@, CHContractBodyView { balance: 0, ..stored_contract(r, k@) }));
        assert(contracts_written(r, w) == contract_write(r1, CHDiskOp::PutContractAllocsSum(k, 0)));
        assert(contracts_written(r, w) =~= r.insert(k@, CHContractBodyView { balance: 0, shadow_space: ShadowSpaceView::empty() }));
        assert(step_fold(cs, keys, register_contract_step()) == register_contract_step()(r, k));
    } else {
        assert(ops_fold(keys, register_contract_op()) =~= Seq::<CHDiskOp>::empty());
    }
}

/// The writes of contract balances give the contracts with those balances stored.
pub proof fn lemma_contract_balances_written(cs: Map<Seq<u8>, CHContractBodyView>, keys: Seq<Key>, m: Map<Seq<u8>, u64>)
    requires
        step_fold(cs, keys, contract_balance_step(m)) is Ok,
    ensures
        contracts_written(cs, ops_fold(keys, contract_balance_op(m))) == step_fold(cs, keys, contract_balance_step(m))->Ok_0,
        step_fold(cs, keys, contract_balance_step(m))->Ok_0.dom() == cs.dom(),
        forall|x: Seq<u8>| #[trigger] cs.dom().contains(x)
            ==> step_fold(cs, keys, contract_balance_step(m))->Ok_0[x].shadow_space == cs[x].shadow_space,
    decreases keys.len(),
{
    if keys.len() > 0 {
        let p = keys.drop_last();
        let k = keys.last();
        assert(step_fold(cs, p, contract_balance_step(m)) is Ok);
        lemma_contract_balances_written(cs, p, m);
        lemma_contracts_written_concat(cs, ops_fold(p, contract_balance_op(m)), contract_balance_op(m)(k));
        let r = step_fold(cs, p, contract_balance_step(m))->Ok_0;
        let w = contract_balance_op(m)(k);
        assert(w.drop_last() =~= Seq::<CHDiskOp>::empty());
        assert(contracts_written(r, w.drop_last()) == r);
        assert(step_fold(cs, keys, contract_balance_step(m)) == contract_balance_step(m)(r, k));
        assert(r.dom().contains(k@));
        assert(contracts_written(r, w) =~= r.insert(k@, CHContractBodyView { balance: m[k@], ..r[k@] }));
        assert(step_fold(cs, keys, contract_balance_step(m))->Ok_0.dom() =~= cs.dom());
    } else {
        assert(ops_fold(keys, contract_balance_op(m)) =~= Seq::<CHDiskOp>::empty());
    }
}

/// Allocations after each listed account is given its value from `m`, in order.
pub open spec fn allocs_put(allocs: Map<Seq<u8>, u128>, keys: Seq<Key>, m: Map<Seq<u8>, u128>) -> Map<Seq<u8>, u128>
    decreases keys.len(),
{
    if keys.len() == 0 {
        allocs
    } else {
        allocs_put(allocs, keys.drop_last(), m).insert(keys.last()@, m[keys.last()@])
    }
}

/// What putting allocations gives: the listed accounts with their values from `m`, the others as
/// they were.
pub proof fn lemma_allocs_put(allocs: Map<Seq<u8>, u128>, keys: Seq<Key>, m: Map<Seq<u8>, u128>)
    ensures
        forall|x: Seq<u8>| #[trigger] allocs_put(allocs, keys, m).dom().contains(x)
            <==> allocs.dom().contains(x) || key_views(keys).contains(x),
        forall|x: Seq<u8>| #[trigger] allocs_put(allocs, keys, m).dom().contains(x)
            ==> allocs_put(allocs, keys, m)[x] == if key_views(keys).contains(x) { m[x] } else { allocs[x] },
    decreases keys.len(),
{
    if keys.len() > 0 {
        let p = keys.drop_last();
        let k = keys.last();
        lemma_allocs_put(allocs, p, m);
        assert(key_views(keys) =~= key_views(p).push(k@));
        assert forall|x: Seq<u8>| key_views(keys).contains(x) <==> key_views(p).contains(x) || x == k@ by {
            crate::keymap::lemma_push_contains(key_views(p), k@);
        }
        let q = allocs_put(allocs, p, m);
        assert(allocs_put(allocs, keys, m) == q.insert(k@, m[k@]));
        assert forall|x: Seq<u8>| #[trigger] allocs_put(allocs, keys, m).dom().contains(x)
            <==> allocs.dom().contains(x) || key_views(keys).contains(x) by {
            assert(q.dom().contains(x) <==> allocs.dom().contains(x) || key_views(p).contains(x));
        }
        assert forall|x: Seq<u8>| #[trigger] allocs_put(allocs, keys, m).dom().contains(x)
            implies allocs_put(allocs, keys, m)[x] == if key_views(keys).contains(x) { m[x] } else { allocs[x] } by {
            if x != k@ {
                assert(q.dom().contains(x));
            }
        }
    } else {
        assert(key_views(keys) =~= Seq::<Seq<u8>>::empty());
    }
}

/// The writes of allocations into a registered contract's tree give it those allocations.
pub proof fn lemma_alloc_ops_written(cs: Map<Seq<u8>, CHContractBodyView>, c: Key, keys: Seq<Key>, m: Map<Seq<u8>, u128>)
    requires
        cs.dom().contains(c@),
    ensures
        contracts_written(cs, ops_fold(keys, alloc_op(c, m))) == cs.insert(c@, with_allocs(cs[c@], allocs_put(cs[c@].shadow_space.allocs, keys, m))),
    decreases keys.len(),
{
    if keys.len() > 0 {
        let p = keys.drop_last();
        let k = keys.last();
        lemma_alloc_ops_written(cs, c, p, m);
        lemma_contracts_written_concat(cs, ops_fold(p, alloc_op(c, m)), alloc_op(c, m)(k));
        let r = contracts_written(cs, ops_fold(p, alloc_op(c, m)));
        let w = alloc_op(c, m)(k);
        assert(w.drop_last() =~= Seq::<CHDiskOp>::empty());
        assert(contracts_written(r, w.drop_last()) == r);
        assert(contracts_written(r, w) == contract_write(r, CHDiskOp::PutShadowAlloc(c, k, m[k@])));
        assert(contracts_written(cs, ops_fold(keys, alloc_op(c, m))) =~= cs.insert(c@, with_allocs(cs[c@], allocs_put(cs[c@].shadow_space.allocs, keys, m))));
    } else {
        assert(ops_fold(keys, alloc_op(c, m)) =~= Seq::<CHDiskOp>::empty());
        assert(cs.insert(c@, with_allocs(cs[c@], cs[c@].shadow_space.allocs)) =~= cs);
    }
}

/// A stored shadow space has no allocation that the updated one replacing it lacks.
pub open spec fn space_fits(cs: Map<Seq<u8>, CHContractBodyView>, c: Seq<u8>, spaces: Map<Seq<u8>, ShadowSpace>) -> bool {
    cs.dom().contains(c) ==> cs[c].shadow_space.allocs.dom().subset_of(spaces[c]@.allocs.dom())
}

/// Storing shadow spaces leaves the contracts registered, and each shadow space either as it was or
/// replaced by the updated one.
pub proof fn lemma_spaces_shape(cs: Map<Seq<u8>, CHContractBodyView>, keys: Seq<Key>, spaces: Map<Seq<u8>, ShadowSpace>)
    requires
        step_fold(cs, keys, space_step(spaces_view(spaces))) is Ok,
        forall|i: int| 0 <= i < keys.len() ==> spaces.dom().contains(#[trigger] keys[i]@),
    ensures
        step_fold(cs, keys, space_step(spaces_view(spaces)))->Ok_0.dom() == cs.dom(),
        forall|x: Seq<u8>| #[trigger] cs.dom().contains(x) ==> {
            let r = step_fold(cs, keys, space_step(spaces_view(spaces)))->Ok_0;
            r[x].shadow_space == cs[x].shadow_space || (spaces.dom().contains(x) && r[x].shadow_space == spaces[x]@)
        },
    decreases keys.len(),
{
    if keys.len() > 0 {
        let p = keys.drop_last();
        assert(step_fold(cs, p, space_step(spaces_view(spaces))) is Ok);
        assert forall|i: int| 0 <= i < p.len() implies spaces.dom().contains(#[trigger] p[i]@) by {
            assert(p[i] == keys[i]);
        }
        lemma_spaces_shape(cs, p, spaces);
        let r = step_fold(cs, p, space_step(spaces_view(spaces)))->Ok_0;
        assert(step_fold(cs, keys, space_step(spaces_view(spaces))) == space_step(spaces_view(spaces))(r, keys.last()));
        assert(step_fold(cs, keys, space_step(spaces_view(spaces)))->Ok_0.dom() =~= cs.dom());
        assert forall|x: Seq<u8>| #[trigger] cs.dom().contains(x) implies {
            let r2 = step_fold(cs, keys, space_step(spaces_view(spaces)))->Ok_0;
            r2[x].shadow_space == cs[x].shadow_space || (spaces.dom().contains(x) && r2[x].shadow_space == spaces[x]@)
        } by {
            if x == keys.last()@ {
                assert(spaces.dom().contains(keys[keys.len() - 1]@));
                assert(spaces_view(spaces)[x] == spaces[x]@);
            }
        }
    }
}

/// The writes of shadow spaces that fit the stored ones give the contracts with those spaces stored.
pub proof fn lemma_spaces_written(cs: Map<Seq<u8>, CHContractBodyView>, keys: Seq<Key>, spaces: Map<Seq<u8>, ShadowSpace>)
    requires
        step_fold(cs, keys, space_step(spaces_view(spaces))) is Ok,
        forall|i: int| 0 <= i < keys.len() ==> spaces.dom().contains(#[trigger] keys[i]@),
        forall|i: int| 0 <= i < keys.len() ==> space_fits(cs, (#[trigger] keys[i])@, spaces),
    ensures
        contracts_written(cs, ops_fold(keys, space_op(spaces))) == step_fold(cs, keys, space_step(spaces_view(spaces)))->Ok_0,
    decreases keys.len(),
{
    if keys.len() > 0 {
        let p = keys.drop_last();
        let c = keys.last();
        assert(step_fold(cs, p, space_step(spaces_view(spaces))) is Ok);
        assert forall|i: int| 0 <= i < p.len() implies spaces.dom().contains(#[trigger] p[i]@) by {
            assert(p[i] == keys[i]);
        }
        assert forall|i: int| 0 <= i < p.len() implies space_fits(cs, (#[trigger] p[i])@, spaces) by {
            assert(p[i] == keys[i]);
        }
        lemma_spaces_written(cs, p, spaces);
        lemma_spaces_shape(cs, p, spaces);
        lemma_contracts_written_concat(cs, ops_fold(p, space_op(spaces)), space_op(spaces)(c));
        let r = step_fold(cs, p, space_step(spaces_view(spaces)))->Ok_0;
        assert(space_fits(cs, keys[keys.len() - 1]@, spaces));
        assert(spaces.dom().contains(keys[keys.len() - 1]@));
        assert(step_fold(cs, keys, space_step(spaces_view(spaces))) == space_step(spaces_view(spaces))(r, c));
        assert(r.dom().contains(c@));
        let e = spaces[c@];
        assert(spaces_view(spaces)[c@] == e@);
        let w = space_op(spaces)(c);
        let aw = ops_fold(e.alloc_keys(), alloc_op(c, e@.allocs));
        assert(w.drop_last() =~= aw);
        lemma_alloc_ops_written(r, c, e.alloc_keys(), e@.allocs);
        lemma_allocs_put(r[c@].shadow_space.allocs, e.alloc_keys(), e@.allocs);
        e.lemma_alloc_keys();
        let put = allocs_put(r[c@].shadow_space.allocs, e.alloc_keys(), e@.allocs);
        assert(r[c@].shadow_space.allocs.dom().subset_of(e@.allocs.dom()));
        assert forall|x: Seq<u8>| #[trigger] put.dom().contains(x) <==> e@.allocs.dom().contains(x) by {}
        assert forall|x: Seq<u8>| #[trigger] put.dom().contains(x) implies put[x] == e@.allocs[x] by {}
        assert(put =~= e@.allocs);
        let r1 = contracts_written(r, aw);
        assert(contracts_written(r, w) == contract_write(r1, CHDiskOp::PutContractAllocsSum(c, e@.allocs_sum)));
        assert(contracts_written(r, w) =~= r.insert(c@, CHContractBodyView { shadow_space: e@, ..r[c@] }));
    } else {
        assert(ops_fold(keys, space_op(spaces)) =~= Seq::<CHDiskOp>::empty());
    }
}

/// The deletions of a contract's listed allocations give its allocations with them removed.
pub proof fn lemma_remove_ops_written(cs: Map<Seq<u8>, CHContractBodyView>, c: Key, list: Seq<Key>)
    requires
        cs.dom().contains(c@),
    ensures
        contracts_written(cs, ops_fold(list, remove_op(c)))
            == cs.insert(c@, with_allocs(cs[c@], accounts_removed(cs[c@].shadow_space.allocs, list))),
    decreases list.len(),
{
    if list.len() > 0 {
        let p = list.drop_last();
        let a = list.last();
        let allocs = cs[c@].shadow_space.allocs;
        lemma_remove_ops_written(cs, c, p);
        lemma_contracts_written_concat(cs, ops_fold(p, remove_op(c)), remove_op(c)(a));
        let r = contracts_written(cs, ops_fold(p, remove_op(c)));
        let w = remove_op(c)(a);
        assert(w.drop_last() =~= Seq::<CHDiskOp>::empty());
        assert(contracts_written(r, w.drop_last()) == r);
        assert(accounts_removed(allocs, list) == accounts_removed(allocs, p).remove(a@));
        assert(contracts_written(cs, ops_fold(list, remove_op(c)))
            =~= cs.insert(c@, with_allocs(cs[c@], accounts_removed(allocs, list))));
    } else {
        assert(ops_fold(list, remove_op(c)) =~= Seq::<CHDiskOp>::empty());
        assert(cs.insert(c@, with_allocs(cs[c@], cs[c@].shadow_space.allocs)) =~= cs);
    }
}

/// The deletions of deallocated accounts give the contracts with them removed.
pub proof fn lemma_deallocs_written(cs: Map<Seq<u8>, CHContractBodyView>, keys: Seq<Key>, lists: Map<Seq<u8>, Vec<Key>>)
    requires
        step_fold(cs, keys, dealloc_step(lists_view(lists))) is Ok,
        forall|i: int| 0 <= i < keys.len() ==> lists.dom().contains(#[trigger] keys[i]@),
    ensures
        contracts_written(cs, ops_fold(keys, dealloc_op(lists))) == step_fold(cs, keys, dealloc_step(lists_view(lists)))->Ok_0,
    decreases keys.len(),
{
    if keys.len() > 0 {
        let p = keys.drop_last();
        let c = keys.last();
        assert(step_fold(cs, p, dealloc_step(lists_view(lists))) is Ok);
        assert forall|i: int| 0 <= i < p.len() implies lists.dom().contains(#[trigger] p[i]@) by {
            assert(p[i] == keys[i]);
        }
        lemma_deallocs_written(cs, p, lists);
        lemma_contracts_written_concat(cs, ops_fold(p, dealloc_op(lists)), dealloc_op(lists)(c));
        let r = step_fold(cs, p, dealloc_step(lists_view(lists)))->Ok_0;
        assert(step_fold(cs, keys, dealloc_step(lists_view(lists))) == dealloc_step(lists_view(lists))(r, c));
        assert(lists.dom().contains(keys[keys.len() - 1]@));
        assert(lists_view(lists)[c@] == lists[c@]@);
        assert(r.dom().contains(c@));
        lemma_remove_ops_written(r, c, lists[c@]@);
        let removed = accounts_removed(r[c@].shadow_space.allocs, lists[c@]@);
        assert(with_allocs(r[c@], removed) == CHContractBodyView {
            shadow_space: ShadowSpaceView { allocs: removed, ..r[c@].shadow_space },
            ..r[c@]
        });
    } else {
        assert(ops_fold(keys, dealloc_op(lists)) =~= Seq::<CHDiskOp>::empty());
    }
}

/// The writes that applying changes produces, segment by segment: for accounts, or not to account
/// trees.
proof fn lemma_apply_ops_kinds(da: AccountDelta, dc: CHContractDelta)
    ensures
        forall|i: int| 0 <= i < ops_fold(da.new_accounts_to_register@, register_account_op()).len() ==> {
            let op = #[trigger] ops_fold(da.new_accounts_to_register@, register_account_op())[i];
            is_account_side_op(op) && is_not_account_tree_op(op)
        },
        forall|i: int| 0 <= i < ops_fold(dc.new_contracts_to_register@, register_contract_op()).len()
            ==> is_not_account_tree_op(#[trigger] ops_fold(dc.new_contracts_to_register@, register_contract_op())[i]),
        forall|i: int| 0 <= i < ops_fold(da.updated_account_balances.raw_keys(), account_balance_op(da.updated_account_balances@)).len()
            ==> is_account_side_op(#[trigger] ops_fold(da.updated_account_balances.raw_keys(), account_balance_op(da.updated_account_balances@))[i]),
        forall|i: int| 0 <= i < ops_fold(dc.updated_contract_balances.raw_keys(), contract_balance_op(dc.updated_contract_balances@)).len()
            ==> is_not_account_tree_op(#[trigger] ops_fold(dc.updated_contract_balances.raw_keys(), contract_balance_op(dc.updated_contract_balances@))[i]),
        forall|i: int| 0 <= i < ops_fold(da.updated_shadow_allocs_sums.raw_keys(), account_sum_op(da.updated_shadow_allocs_sums@)).len()
            ==> is_account_side_op(#[trigger] ops_fold(da.updated_shadow_allocs_sums.raw_keys(), account_sum_op(da.updated_shadow_allocs_sums@))[i]),
        forall|i: int| 0 <= i < ops_fold(dc.updated_shadow_spaces.raw_keys(), space_op(dc.updated_shadow_spaces@)).len()
            ==> is_not_account_tree_op(#[trigger] ops_fold(dc.updated_shadow_spaces.raw_keys(), space_op(dc.updated_shadow_spaces@))[i]),
        forall|i: int| 0 <= i < ops_fold(dc.deallocs_list.raw_keys(), dealloc_op(dc.deallocs_list@)).len()
            ==> is_not_account_tree_op(#[trigger] ops_fold(dc.deallocs_list.raw_keys(), dealloc_op(dc.deallocs_list@))[i]),
{
    let both = |op: CHDiskOp| is_account_side_op(op) && is_not_account_tree_op(op);
    let acc = |op: CHDiskOp| is_account_side_op(op);
    let other = |op: CHDiskOp| is_not_account_tree_op(op);
    assert forall|k: Key, i: int| 0 <= i < register_account_op()(k).len() implies both(#[trigger] register_account_op()(k)[i]) by {}
    lemma_fold_all(da.new_accounts_to_register@, register_account_op(), both);
    assert forall|k: Key, i: int| 0 <= i < register_contract_op()(k).len() implies other(#[trigger] register_contract_op()(k)[i]) by {
        assert(i == 0 || i == 1);
    }
    lemma_fold_all(dc.new_contracts_to_register@, register_contract_op(), other);
    let m3 = da.updated_account_balances@;
    assert forall|k: Key, i: int| 0 <= i < account_balance_op(m3)(k).len() implies acc(#[trigger] account_balance_op(m3)(k)[i]) by {}
    lemma_fold_all(da.updated_account_balances.raw_keys(), account_balance_op(m3), acc);
    let m4 = dc.updated_contract_balances@;
    assert forall|k: Key, i: int| 0 <= i < contract_balance_op(m4)(k).len() implies other(#[trigger] contract_balance_op(m4)(k)[i]) by {}
    lemma_fold_all(dc.updated_contract_balances.raw_keys(), contract_balance_op(m4), other);
    let m5 = da.updated_shadow_allocs_sums@;
    assert forall|k: Key, i: int| 0 <= i < account_sum_op(m5)(k).len() implies acc(#[trigger] account_sum_op(m5)(k)[i]) by {}
    lemma_fold_all(da.updated_shadow_allocs_sums.raw_keys(), account_sum_op(m5), acc);
    let sp = dc.updated_shadow_spaces@;
    assert forall|c: Key, i: int| 0 <= i < space_op(sp)(c).len() implies other(#[trigger] space_op(sp)(c)[i]) by {
        let mm = sp[c@]@.allocs;
        assert forall|a: Key, j: int| 0 <= j < alloc_op(c, mm)(a).len() implies other(#[trigger] alloc_op(c, mm)(a)[j]) by {}
        lemma_fold_all(sp[c@].alloc_keys(), alloc_op(c, mm), other);
        let aw = ops_fold(sp[c@].alloc_keys(), alloc_op(c, mm));
        if i < aw.len() {
            assert(space_op(sp)(c)[i] == aw[i]);
        }
    }
    lemma_fold_all(dc.updated_shadow_spaces.raw_keys(), space_op(sp), other);
    let ls = dc.deallocs_list@;
    assert forall|c: Key, i: int| 0 <= i < dealloc_op(ls)(c).len() implies other(#[trigger] dealloc_op(ls)(c)[i]) by {
        assert forall|a: Key, j: int| 0 <= j < remove_op(c)(a).len() implies other(#[trigger] remove_op(c)(a)[j]) by {}
        lemma_fold_all(ls[c@]@, remove_op(c), other);
    }
    lemma_fold_all(dc.deallocs_list.raw_keys(), dealloc_op(ls), other);
}

/// When a coin holder's changes are applied successfully, making the writes they produce over the
/// bodies its account and contract trees held gives the new permanent bodies: the trees hold what
/// the coin holder holds. This asks what the coin holder's own operations keep (no new account or
/// contract is already registered, and an updated shadow space keeps every stored allocation), and
/// that every new account has its balance or shadow allocs sum written: a registration alone is
/// written to the root of the account store, which the trees do not hold.
pub proof fn law_apply_writes_match_state(
    accounts: Map<Seq<u8>, CHAccountBodyView>,
    contracts: Map<Seq<u8>, CHContractBodyView>,
    da: AccountDelta,
    dc: CHContractDelta,
)
    requires
        holder_apply_outcome(accounts, contracts, da, dc) is Ok,
        forall|k: Seq<u8>| #[trigger] da@.is_new(k) ==> !accounts.dom().contains(k),
        forall|k: Seq<u8>| #[trigger] da@.is_new(k)
            ==> da@.updated_account_balances.dom().contains(k) || da@.updated_shadow_allocs_sums.dom().contains(k),
        forall|c: Seq<u8>| #[trigger] dc@.is_new(c) ==> !contracts.dom().contains(c),
        forall|c: Seq<u8>| #[trigger] dc@.updated_shadow_spaces.dom().contains(c) && contracts.dom().contains(c)
            ==> contracts[c].shadow_space.allocs.dom().subset_of(dc@.updated_shadow_spaces[c].allocs.dom()),
    ensures
        accounts_written(accounts, holder_apply_ops(da, dc)) == holder_apply_outcome(accounts, contracts, da, dc)->Ok_0.0,
        contracts_written(contracts, holder_apply_ops(da, dc)) == holder_apply_outcome(accounts, contracts, da, dc)->Ok_0.1,
{
    let nk = da.new_accounts_to_register@;
    let s1 = ops_fold(nk, register_account_op());
    let s2 = ops_fold(dc.new_contracts_to_register@, register_contract_op());
    let bk = da.updated_account_balances.raw_keys();
    let s3 = ops_fold(bk, account_balance_op(da.updated_account_balances@));
    let s4 = ops_fold(dc.updated_contract_balances.raw_keys(), contract_balance_op(dc.updated_contract_balances@));
    let sk = da.updated_shadow_allocs_sums.raw_keys();
    let s5 = ops_fold(sk, account_sum_op(da.updated_shadow_allocs_sums@));
    let ck = dc.updated_shadow_spaces.raw_keys();
    let s6 = ops_fold(ck, space_op(dc.updated_shadow_spaces@));
    let lk = dc.deallocs_list.raw_keys();
    let s7 = ops_fold(lk, dealloc_op(dc.deallocs_list@));
    let produced = holder_apply_ops(da, dc);
    assert(produced == s1 + s2 + s3 + s4 + s5 + s6 + s7);
    lemma_apply_ops_kinds(da, dc);

    let a1 = accounts_registered(accounts, da);
    let c1 = contracts_registered(contracts, dc);
    let a2 = step_fold(a1, bk, account_balance_step(da.updated_account_balances@))->Ok_0;
    let c2 = step_fold(c1, dc.updated_contract_balances.raw_keys(), contract_balance_step(dc.updated_contract_balances@))->Ok_0;
    let a3 = step_fold(a2, sk, account_sum_step(da.updated_shadow_allocs_sums@))->Ok_0;
    let c3 = step_fold(c2, ck, space_step(spaces_view(dc.updated_shadow_spaces@)))->Ok_0;

    // Accounts.
    lemma_accounts_written_concat(accounts, s1 + s2 + s3 + s4 + s5 + s6, s7);
    lemma_accounts_written_concat(accounts, s1 + s2 + s3 + s4 + s5, s6);
    lemma_accounts_written_concat(accounts, s1 + s2 + s3 + s4, s5);
    lemma_accounts_written_concat(accounts, s1 + s2 + s3, s4);
    lemma_accounts_written_concat(accounts, s1 + s2, s3);
    lemma_accounts_written_concat(accounts, s1, s2);
    lemma_other_ops_keep_accounts(accounts, s1);
    lemma_other_ops_keep_accounts(accounts, s2);
    assert forall|i: int| 0 <= i < nk.len() implies !accounts.dom().contains(#[trigger] nk[i]@) by {
        assert(key_views(nk)[i] == nk[i]@);
        assert(da@.is_new(nk[i]@));
    }
    let fresh = key_views(nk).to_set();
    lemma_registered_mirror(accounts, nk);
    lemma_balances_mirror(a1, accounts, fresh, bk, da.updated_account_balances@);
    let w3 = accounts_written(accounts, s3);
    lemma_other_ops_keep_accounts(w3, s4);
    lemma_sums_mirror(a2, w3, fresh, sk, da.updated_shadow_allocs_sums@);
    let w5 = accounts_written(w3, s5);
    lemma_other_ops_keep_accounts(w5, s6);
    lemma_other_ops_keep_accounts(w5, s7);
    da.updated_account_balances.lemma_dom_keys();
    da.updated_shadow_allocs_sums.lemma_dom_keys();
    assert forall|x: Seq<u8>| fresh.contains(x) implies #[trigger] w5.dom().contains(x) by {
        assert(key_views(nk).contains(x));
        assert(da@.is_new(x));
        if da@.updated_account_balances.dom().contains(x) {
            assert(da.updated_account_balances.key_seq().contains(x));
            assert(key_views(bk).contains(x));
            assert(w3.dom().contains(x));
        } else {
            assert(da.updated_shadow_allocs_sums.key_seq().contains(x));
            assert(key_views(sk).contains(x));
        }
    }
    assert(a3.dom() =~= w5.dom());
    assert(a3 =~= w5);

    // Contracts.
    lemma_contracts_written_concat(contracts, s1 + s2 + s3 + s4 + s5 + s6, s7);
    lemma_contracts_written_concat(contracts, s1 + s2 + s3 + s4 + s5, s6);
    lemma_contracts_written_concat(contracts, s1 + s2 + s3 + s4, s5);
    lemma_contracts_written_concat(contracts, s1 + s2 + s3, s4);
    lemma_contracts_written_concat(contracts, s1 + s2, s3);
    lemma_contracts_written_concat(contracts, s1, s2);
    lemma_account_ops_keep_contracts(contracts, s1);
    let ncs = dc.new_contracts_to_register@;
    assert forall|i: int| 0 <= i < ncs.len() implies !contracts.dom().contains(#[trigger] ncs[i]@) by {
        assert(key_views(ncs)[i] == ncs[i]@);
        assert(dc@.is_new(ncs[i]@));
    }
    lemma_new_contracts_written(contracts, ncs);
    lemma_register_contracts_shape(contracts, ncs);
    lemma_account_ops_keep_contracts(c1, s3);
    lemma_contract_balances_written(c1, dc.updated_contract_balances.raw_keys(), dc.updated_contract_balances@);
    lemma_account_ops_keep_contracts(c2, s5);
    let sp = dc.updated_shadow_spaces@;
    dc.updated_shadow_spaces.lemma_dom_keys();
    assert forall|i: int| 0 <= i < ck.len() implies sp.dom().contains(#[trigger] ck[i]@) by {
        assert(dc.updated_shadow_spaces.key_seq().len() == ck.len());
        assert(dc.updated_shadow_spaces.key_seq()[i] == ck[i]@);
        assert(dc.updated_shadow_spaces.key_seq().contains(ck[i]@));
    }
    assert forall|i: int| 0 <= i < ck.len() implies space_fits(c2, (#[trigger] ck[i])@, sp) by {
        let c = ck[i]@;
        assert(sp.dom().contains(c));
        assert(dc@.updated_shadow_spaces.dom().contains(c));
        assert(dc@.updated_shadow_spaces[c] == sp[c]@);
        if c2.dom().contains(c) {
            assert(c2[c].shadow_space == c1[c].shadow_space);
            if contracts.dom().contains(c) {
                if key_views(ncs).contains(c) {
                    assert(dc@.is_new(c));
                }
                assert(kept_contract(c1, contracts, c));
            } else {
                assert(c1[c].shadow_space == ShadowSpaceView::empty());
            }
        }
    }
    lemma_spaces_written(c2, ck, sp);
    let ls = dc.deallocs_list@;
    dc.deallocs_list.lemma_dom_keys();
    assert forall|i: int| 0 <= i < lk.len() implies ls.dom().contains(#[trigger] lk[i]@) by {
        assert(dc.deallocs_list.key_seq().len() == lk.len());
        assert(dc.deallocs_list.key_seq()[i] == lk[i]@);
        assert(dc.deallocs_list.key_seq().contains(lk[i]@));
    }
    lemma_deallocs_written(c3, lk, ls);
}

/// Deleting one contract's listed allocations leaves none of them in its stored tree and every
/// other contract's tree as it was.
pub proof fn lemma_remove_ops_clear(w: Map<Seq<u8>, CHContractBodyView>, c: Key, list: Seq<Key>)
    ensures
        ({
            let r = contracts_written(w, ops_fold(list, remove_op(c)));
            &&& forall|x: Seq<u8>| x != c@ ==> (#[trigger] r.dom().contains(x) <==> w.dom().contains(x))
            &&& forall|x: Seq<u8>| x != c@ && #[trigger] w.dom().contains(x) ==> r[x] == w[x]
            &&& forall|a: Seq<u8>| #[trigger] key_views(list).contains(a)
                ==> r.dom().contains(c@) && !r[c@].shadow_space.allocs.dom().contains(a)
        }),
    decreases list.len(),
{
    if list.len() > 0 {
        let p = list.drop_last();
        let k = list.last();
        lemma_remove_ops_clear(w, c, p);
        lemma_contracts_written_concat(w, ops_fold(p, remove_op(c)), remove_op(c)(k));
        let r0 = contracts_written(w, ops_fold(p, remove_op(c)));
        let op = remove_op(c)(k);
        assert(op.drop_last() =~= Seq::<CHDiskOp>::empty());
        assert(contracts_written(r0, op.drop_last()) == r0);
        assert(contracts_written(r0, op) == contract_write(r0, CHDiskOp::RemoveShadowAlloc(c, k)));
        assert forall|x: Seq<u8>| key_views(list).contains(x) <==> key_views(p).contains(x) || x == k@ by {
            assert(key_views(list) =~= key_views(p).push(k@));
            crate::keymap::lemma_push_contains(key_views(p), k@);
        }
    }
}

/// The deletions of deallocated accounts leave none of them in their contracts' stored trees,
/// whatever the trees held before.
pub proof fn lemma_dealloc_ops_clear(w: Map<Seq<u8>, CHContractBodyView>, keys: Seq<Key>, lists: Map<Seq<u8>, Vec<Key>>)
    ensures
        forall|c: Seq<u8>, a: Seq<u8>| #[trigger] key_views(keys).contains(c) && lists.dom().contains(c)
            && #[trigger] key_views(lists[c]@).contains(a) ==> {
            let r = contracts_written(w, ops_fold(keys, dealloc_op(lists)));
            r.dom().contains(c) && !r[c].shadow_space.allocs.dom().contains(a)
        },
    decreases keys.len(),
{
    if keys.len() > 0 {
        let p = keys.drop_last();
        let k = keys.last();
        lemma_dealloc_ops_clear(w, p, lists);
        lemma_contracts_written_concat(w, ops_fold(p, dealloc_op(lists)), dealloc_op(lists)(k));
        let r0 = contracts_written(w, ops_fold(p, dealloc_op(lists)));
        lemma_remove_ops_clear(r0, k, lists[k@]@);
        assert forall|x: Seq<u8>| key_views(keys).contains(x) <==> key_views(p).contains(x) || x == k@ by {
            assert(key_views(keys) =~= key_views(p).push(k@));
            crate::keymap::lemma_push_contains(key_views(p), k@);
        }
    }
}

/// Removing accounts from allocations leaves none of them there.
pub proof fn lemma_accounts_removed_clear(m: Map<Seq<u8>, u128>, s: Seq<Key>)
    ensures
        forall|a: Seq<u8>| #[trigger] key_views(s).contains(a) ==> !accounts_removed(m, s).dom().contains(a),
    decreases s.len(),
{
    if s.len() > 0 {
        let p = s.drop_last();
        lemma_accounts_removed_clear(m, p);
        assert forall|x: Seq<u8>| key_views(s).contains(x) <==> key_views(p).contains(x) || x == s.last()@ by {
            assert(key_views(s) =~= key_views(p).push(s.last()@));
            crate::keymap::lemma_push_contains(key_views(p), s.last()@);
        }
    }
}

/// Removing deallocated accounts from the permanent contracts leaves every listed contract
/// registered and none of its deallocated accounts allocated.
pub proof fn lemma_deallocs_clear(cs: Map<Seq<u8>, CHContractBodyView>, keys: Seq<Key>, lists: Map<Seq<u8>, Seq<Key>>)
    requires
        step_fold(cs, keys, dealloc_step(lists)) is Ok,
    ensures
        forall|c: Seq<u8>, a: Seq<u8>| #[trigger] key_views(keys).contains(c) && #[trigger] key_views(lists[c]).contains(a) ==> {
            let r = step_fold(cs, keys, dealloc_step(lists))->Ok_0;
            r.dom().contains(c) && !r[c].shadow_space.allocs.dom().contains(a)
        },
        step_fold(cs, keys, dealloc_step(lists))->Ok_0.dom() == cs.dom(),
    decreases keys.len(),
{
    if keys.len() > 0 {
        let p = keys.drop_last();
        let k = keys.last();
        assert(step_fold(cs, p, dealloc_step(lists)) is Ok);
        lemma_deallocs_clear(cs, p, lists);
        let r0 = step_fold(cs, p, dealloc_step(lists))->Ok_0;
        lemma_accounts_removed_clear(r0[k@].shadow_space.allocs, lists[k@]);
        assert(step_fold(cs, keys, dealloc_step(lists))->Ok_0.dom() =~= cs.dom());
        assert forall|x: Seq<u8>| key_views(keys).contains(x) <==> key_views(p).contains(x) || x == k@ by {
            assert(key_views(keys) =~= key_views(p).push(k@));
            crate::keymap::lemma_push_contains(key_views(p), k@);
        }
    }
}

/// Once a coin holder's changes are applied successfully, no deallocated account keeps an
/// allocation, in memory or in its contract's stored tree: the writes made over whatever the store
/// held delete it.
pub proof fn law_apply_clears_deallocated(
    accounts: Map<Seq<u8>, CHAccountBodyView>,
    contracts: Map<Seq<u8>, CHContractBodyView>,
    stored: Map<Seq<u8>, CHContractBodyView>,
    da: AccountDelta,
    dc: CHContractDelta,
)
    requires
        holder_apply_outcome(accounts, contracts, da, dc) is Ok,
    ensures
        forall|c: Seq<u8>, a: Seq<u8>| #[trigger] dc@.deallocs_list.dom().contains(c) && #[trigger] key_views(dc@.deallocs_list[c]).contains(a) ==> {
            let r = contracts_written(stored, holder_apply_ops(da, dc));
            let m = holder_apply_outcome(accounts, contracts, da, dc)->Ok_0.1;
            &&& r.dom().contains(c) && !r[c].shadow_space.allocs.dom().contains(a)
            &&& m.dom().contains(c) && !m[c].shadow_space.allocs.dom().contains(a)
        },
{
    let kd = dc.deallocs_list.raw_keys();
    let md = dc.deallocs_list@;
    let o7 = ops_fold(kd, dealloc_op(md));
    let before = ops_fold(da.new_accounts_to_register@, register_account_op())
        + ops_fold(dc.new_contracts_to_register@, register_contract_op())
        + ops_fold(da.updated_account_balances.raw_keys(), account_balance_op(da.updated_account_balances@))
        + ops_fold(dc.updated_contract_balances.raw_keys(), contract_balance_op(dc.updated_contract_balances@))
        + ops_fold(da.updated_shadow_allocs_sums.raw_keys(), account_sum_op(da.updated_shadow_allocs_sums@))
        + ops_fold(dc.updated_shadow_spaces.raw_keys(), space_op(dc.updated_shadow_spaces@));
    assert(holder_apply_ops(da, dc) == before + o7);
    lemma_contracts_written_concat(stored, before, o7);
    lemma_dealloc_ops_clear(contracts_written(stored, before), kd, md);
    let a1 = accounts_registered(accounts, da);
    let c1 = contracts_registered(contracts, dc);
    let a2 = step_fold(a1, da.updated_account_balances.raw_keys(), account_balance_step(da.updated_account_balances@))->Ok_0;
    let c2 = step_fold(c1, dc.updated_contract_balances.raw_keys(), contract_balance_step(dc.updated_contract_balances@))->Ok_0;
    let c3 = step_fold(c2, dc.updated_shadow_spaces.raw_keys(), space_step(spaces_view(dc.updated_shadow_spaces@)))->Ok_0;
    lemma_deallocs_clear(c3, kd, lists_view(md));
    dc.deallocs_list.lemma_dom_keys();
    assert forall|c: Seq<u8>, a: Seq<u8>| #[trigger] dc@.deallocs_list.dom().contains(c) && #[trigger] key_views(dc@.deallocs_list[c]).contains(a) implies {
        let r = contracts_written(stored, holder_apply_ops(da, dc));
        let m = holder_apply_outcome(accounts, contracts, da, dc)->Ok_0.1;
        &&& r.dom().contains(c) && !r[c].shadow_space.allocs.dom().contains(a)
        &&& m.dom().contains(c) && !m[c].shadow_space.allocs.dom().contains(a)
    } by {
        assert(md.dom().contains(c) <==> dc.deallocs_list.key_seq().contains(c));
        assert(key_views(kd).contains(c));
        assert(dc@.deallocs_list[c] == md[c]@);
        assert(lists_view(md)[c] == md[c]@);
    }
}

/// Once a contract coin holder's changes are applied successfully, no deallocated account keeps an
/// allocation, in memory or in its contract's stored tree.
pub proof fn law_contract_apply_clears_deallocated(
    contracts: Map<Seq<u8>, CHContractBodyView>,
    stored: Map<Seq<u8>, CHContractBodyView>,
    d: CHContractDelta,
)
    requires
        contract_apply_outcome(contracts, d) is Ok,
    ensures
        forall|c: Seq<u8>, a: Seq<u8>| #[trigger] d@.deallocs_list.dom().contains(c) && #[trigger] key_views(d@.deallocs_list[c]).contains(a) ==> {
            let r = contracts_written(stored, contract_apply_ops(d));
            let m = contract_apply_outcome(contracts, d)->Ok_0;
            &&& r.dom().contains(c) && !r[c].shadow_space.allocs.dom().contains(a)
            &&& m.dom().contains(c) && !m[c].shadow_space.allocs.dom().contains(a)
        },
{
    let kd = d.deallocs_list.raw_keys();
    let md = d.deallocs_list@;
    let dls = ops_fold(kd, dealloc_op(md));
    let before = ops_fold(d.new_contracts_to_register@, register_contract_op())
        + ops_fold(d.updated_contract_balances.raw_keys(), contract_balance_op(d.updated_contract_balances@))
        + ops_fold(d.updated_shadow_spaces.raw_keys(), space_op(d.updated_shadow_spaces@));
    assert(contract_apply_ops(d) == before + dls);
    lemma_contracts_written_concat(stored, before, dls);
    lemma_dealloc_ops_clear(contracts_written(stored, before), kd, md);
    let c1 = contracts_registered(contracts, d);
    let c2 = step_fold(c1, d.updated_contract_balances.raw_keys(), contract_balance_step(d.updated_contract_balances@))->Ok_0;
    let c3 = step_fold(c2, d.updated_shadow_spaces.raw_keys(), space_step(spaces_view(d.updated_shadow_spaces@)))->Ok_0;
    lemma_deallocs_clear(c3, kd, lists_view(md));
    d.deallocs_list.lemma_dom_keys();
    assert forall|c: Seq<u8>, a: Seq<u8>| #[trigger] d@.deallocs_list.dom().contains(c) && #[trigger] key_views(d@.deallocs_list[c]).contains(a) implies {
        let r = contracts_written(stored, contract_apply_ops(d));
        let m = contract_apply_outcome(contracts, d)->Ok_0;
        &&& r.dom().contains(c) && !r[c].shadow_space.allocs.dom().contains(a)
        &&& m.dom().contains(c) && !m[c].shadow_space.allocs.dom().contains(a)
    } by {
        assert(md.dom().contains(c) <==> d.deallocs_list.key_seq().contains(c));
        assert(key_views(kd).contains(c));
        assert(d@.deallocs_list[c] == md[c]@);
        assert(lists_view(md)[c] == md[c]@);
    }
}

} // verus!
