use super::account_body::CMAccountBody;
use super::coin_manager::{contract_map_view, CoinManager, CoinManagerView};
use super::contract_body::{CMContractBody, CMContractBodyView};
use super::errors::{CMConstructionAccountError, CMConstructionContractError, CMConstructionError};
use super::shadow_space::{ShadowSpace, ShadowSpaceView};
use crate::codec::{bytes_copy, bytes_to_array32, le_value, u128_from_le_bytes, u64_from_le_bytes};
use crate::keymap::{Key, KeyMap};
use vstd::prelude::*;

verus! {

/// The entries of a stored tree, as (key bytes, value bytes), in stored order.
pub type TreeEntries = Vec<(Vec<u8>, Vec<u8>)>;

/// A stored tree with its name.
pub type NamedTree = (Vec<u8>, TreeEntries);

/// A byte string of `n` times the byte `b`.
pub open spec fn all_bytes(n: nat, b: u8) -> Seq<u8> {
    Seq::new(n, |i: int| b)
}

/// An account tree entry is well formed: a one-byte key, 0x00 with an 8-byte balance or 0x01 with a
/// 16-byte global shadow allocs sum.
pub open spec fn account_entry_ok(e: (Vec<u8>, Vec<u8>)) -> bool {
    &&& e.0@.len() == 1
    &&& (e.0@[0] == 0 && e.1@.len() == 8) || (e.0@[0] == 1 && e.1@.len() == 16)
}

/// The error reported for an ill-formed account tree entry.
pub open spec fn account_entry_fault(k: Seq<u8>, i: int, e: (Vec<u8>, Vec<u8>), err: CMConstructionAccountError) -> bool {
    if e.0@.len() != 1 {
        err matches CMConstructionAccountError::UnableToDeserializeKeyBytesFromTreeKey(kk, ii, v)
            && kk@ == k && ii == i && v@ == e.0@
    } else if e.0@[0] == 0 {
        err matches CMConstructionAccountError::UnableToDeserializeAccountBalanceFromTreeValue(kk, ii, b, v)
            && kk@ == k && ii == i && b@ == e.0@ && v@ == e.1@
    } else if e.0@[0] == 1 {
        err matches CMConstructionAccountError::UnableToDeserializeAccountShadowAllocsSumFromTreeValue(kk, ii, b, v)
            && kk@ == k && ii == i && b@ == e.0@ && v@ == e.1@
    } else {
        err matches CMConstructionAccountError::InvalidTreeKeyEncountered(kk, v) && kk@ == k && v@ == e.0@
    }
}

/// `i` is the first ill-formed entry of an account tree.
pub open spec fn first_bad_account_entry(entries: Seq<(Vec<u8>, Vec<u8>)>, i: int) -> bool {
    &&& 0 <= i < entries.len()
    &&& forall|j: int| 0 <= j < i ==> account_entry_ok(#[trigger] entries[j])
    &&& !account_entry_ok(entries[i])
}

/// The account body that a well-formed account tree stores: the last balance and sum written, zero
/// where none is.
pub open spec fn account_tree_body(entries: Seq<(Vec<u8>, Vec<u8>)>) -> CMAccountBody
    decreases entries.len(),
{
    if entries.len() == 0 {
        CMAccountBody { balance: 0, global_shadow_allocs_sum: 0 }
    } else {
        let b = account_tree_body(entries.drop_last());
        let e = entries.last();
        if e.0@[0] == 0 {
            CMAccountBody { balance: le_value(e.1@) as u64, ..b }
        } else {
            CMAccountBody { global_shadow_allocs_sum: le_value(e.1@) as u128, ..b }
        }
    }
}

/// A contract tree entry is well formed: a 32-byte key, an 8-byte value for the special balance and
/// allocs sum keys, a 16-byte allocation for any other key.
pub open spec fn contract_entry_ok(e: (Vec<u8>, Vec<u8>)) -> bool {
    &&& e.0@.len() == 32
    &&& if e.0@ == all_bytes(32, 0) || e.0@ == all_bytes(32, 1) {
        e.1@.len() == 8
    } else {
        e.1@.len() == 16
    }
}

/// The error reported for an ill-formed contract tree entry.
pub open spec fn contract_entry_fault(c: Seq<u8>, i: int, e: (Vec<u8>, Vec<u8>), err: CMConstructionContractError) -> bool {
    if e.0@.len() != 32 {
        err matches CMConstructionContractError::UnableToDeserializeKeyBytesFromTreeKey(cc, ii, v)
            && cc@ == c && ii == i && v@ == e.0@
    } else if e.0@ == all_bytes(32, 0) {
        err matches CMConstructionContractError::UnableToDeserializeContractBalanceFromTreeValue(cc, ii, k, v)
            && cc@ == c && ii == i && k@ == e.0@ && v@ == e.1@
    } else if e.0@ == all_bytes(32, 1) {
        err matches CMConstructionContractError::UnableToDeserializeAllocsSumFromTreeValue(cc, ii, k, v)
            && cc@ == c && ii == i && k@ == e.0@ && v@ == e.1@
    } else {
        err matches CMConstructionContractError::UnableToDeserializeAllocValueFromTreeValue(cc, ii, k, v)
            && cc@ == c && ii == i && k@ == e.0@ && v@ == e.1@
    }
}

/// `i` is the first ill-formed entry of a contract tree.
pub open spec fn first_bad_contract_entry(entries: Seq<(Vec<u8>, Vec<u8>)>, i: int) -> bool {
    &&& 0 <= i < entries.len()
    &&& forall|j: int| 0 <= j < i ==> contract_entry_ok(#[trigger] entries[j])
    &&& !contract_entry_ok(entries[i])
}

/// The contract body that a well-formed contract tree stores: the last balance and allocs sum
/// written (zero where none is) and every allocation, with no deferred change.
pub open spec fn contract_tree_body(entries: Seq<(Vec<u8>, Vec<u8>)>) -> CMContractBodyView
    decreases entries.len(),
{
    if entries.len() == 0 {
        CMContractBodyView { balance: 0, shadow_space: ShadowSpaceView { allocs_sum: 0, allocs: Map::empty(), deferred: 0 } }
    } else {
        let b = contract_tree_body(entries.drop_last());
        let e = entries.last();
        if e.0@ == all_bytes(32, 0) {
            CMContractBodyView { balance: le_value(e.1@) as u64, ..b }
        } else if e.0@ == all_bytes(32, 1) {
            CMContractBodyView { shadow_space: ShadowSpaceView { allocs_sum: le_value(e.1@) as u64, ..b.shadow_space }, ..b }
        } else {
            CMContractBodyView {
                shadow_space: ShadowSpaceView { allocs: b.shadow_space.allocs.insert(e.0@, le_value(e.1@) as u128), ..b.shadow_space },
                ..b
            }
        }
    }
}

/// Whether a 32-byte array is `b` repeated.
pub fn array32_all(k: &[u8; 32], b: u8) -> (r: bool)
    ensures
        r == (k@ == all_bytes(32, b)),
{
    let mut i: usize = 0;
    while i < 32
        invariant
            0 <= i <= 32,
            k@.len() == 32,
            forall|j: int| 0 <= j < i ==> k@[j] == b,
        decreases 32 - i,
    {
        if k[i] != b {
            proof {
                assert(all_bytes(32, b)[i as int] == b);
            }
            return false;
        }
        i = i + 1;
    }
    proof {
        assert(k@ =~= all_bytes(32, b));
    }
    true
}

/// Rebuilds an account body from the entries of its stored tree.
pub fn parse_account_tree(account_key: Key, entries: &TreeEntries) -> (r: Result<CMAccountBody, CMConstructionAccountError>)
    ensures
        match r {
            Ok(b) => (forall|i: int| 0 <= i < entries@.len() ==> account_entry_ok(#[trigger] entries@[i]))
                && b == account_tree_body(entries@),
            Err(e) => exists|i: int| #[trigger] first_bad_account_entry(entries@, i)
                && account_entry_fault(account_key@, i, entries@[i], e),
        },
{
    let mut body = CMAccountBody::new(0, 0);
    let n = entries.len();
    let mut i: usize = 0;
    while i < n
        invariant
            0 <= i <= n,
            n == entries@.len(),
            forall|j: int| 0 <= j < i ==> account_entry_ok(#[trigger] entries@[j]),
            body == account_tree_body(entries@.subrange(0, i as int)),
        decreases n - i,
    {
        let key = &entries[i].0;
        let value = &entries[i].1;
        proof {
            assert(entries@.subrange(0, i + 1).drop_last() =~= entries@.subrange(0, i as int));
        }
        if key.len() != 1 {
            proof {
                assert(first_bad_account_entry(entries@, i as int));
            }
            return Err(CMConstructionAccountError::UnableToDeserializeKeyBytesFromTreeKey(account_key, i, bytes_copy(key)));
        }
        if key[0] == 0 {
            match u64_from_le_bytes(value) {
                None => {
                    let b: [u8; 1] = [0u8; 1];
                    proof {
                        assert(b@ =~= key@);
                        assert(first_bad_account_entry(entries@, i as int));
                    }
                    return Err(CMConstructionAccountError::UnableToDeserializeAccountBalanceFromTreeValue(
                        account_key, i, b, bytes_copy(value)));
                },
                Some(v) => {
                    body.update_balance(v);
                },
            }
        } else if key[0] == 1 {
            match u128_from_le_bytes(value) {
                None => {
                    let b: [u8; 1] = [1u8; 1];
                    proof {
                        assert(b@ =~= key@);
                        assert(first_bad_account_entry(entries@, i as int));
                    }
                    return Err(CMConstructionAccountError::UnableToDeserializeAccountShadowAllocsSumFromTreeValue(
                        account_key, i, b, bytes_copy(value)));
                },
                Some(v) => {
                    body.update_global_shadow_allocs_sum(v);
                },
            }
        } else {
            proof {
                assert(first_bad_account_entry(entries@, i as int));
            }
            return Err(CMConstructionAccountError::InvalidTreeKeyEncountered(account_key, bytes_copy(key)));
        }
        i = i + 1;
    }
    proof {
        assert(entries@.subrange(0, n as int) =~= entries@);
    }
    Ok(body)
}

/// Rebuilds a contract body from the entries of its stored tree; fails on the first ill-formed entry,
/// or when the allocs sum exceeds the contract balance.
pub fn parse_contract_tree(contract_id: Key, entries: &TreeEntries) -> (r: Result<CMContractBody, CMConstructionContractError>)
    ensures
        match r {
            Ok(b) => (forall|i: int| 0 <= i < entries@.len() ==> contract_entry_ok(#[trigger] entries@[i]))
                && contract_tree_body(entries@).shadow_space.allocs_sum <= contract_tree_body(entries@).balance
                && b@ == contract_tree_body(entries@),
            Err(e) => (exists|i: int| #[trigger] first_bad_contract_entry(entries@, i)
                && contract_entry_fault(contract_id@, i, entries@[i], e)) || (
                (forall|i: int| 0 <= i < entries@.len() ==> contract_entry_ok(#[trigger] entries@[i]))
                && e == CMConstructionContractError::AllocsSumExceedsTheContractBalance(
                    contract_id,
                    contract_tree_body(entries@).shadow_space.allocs_sum,
                    contract_tree_body(entries@).balance,
                )
                && contract_tree_body(entries@).shadow_space.allocs_sum > contract_tree_body(entries@).balance),
        },
{
    let mut balance: u64 = 0;
    let mut allocs_sum: u64 = 0;
    let mut allocs: KeyMap<u128> = KeyMap::new();
    let n = entries.len();
    let mut i: usize = 0;
    while i < n
        invariant
            0 <= i <= n,
            n == entries@.len(),
            forall|j: int| 0 <= j < i ==> contract_entry_ok(#[trigger] entries@[j]),
            contract_tree_body(entries@.subrange(0, i as int)) == (CMContractBodyView {
                balance,
                shadow_space: ShadowSpaceView { allocs_sum, allocs: allocs@, deferred: 0 },
            }),
        decreases n - i,
    {
        let key = &entries[i].0;
        let value = &entries[i].1;
        proof {
            assert(entries@.subrange(0, i + 1).drop_last() =~= entries@.subrange(0, i as int));
        }
        let k = match bytes_to_array32(key) {
            None => {
                proof {
                    assert(first_bad_contract_entry(entries@, i as int));
                }
                return Err(CMConstructionContractError::UnableToDeserializeKeyBytesFromTreeKey(contract_id, i, bytes_copy(key)));
            },
            Some(k) => k,
        };
        if array32_all(&k, 0) {
            match u64_from_le_bytes(value) {
                None => {
                    proof {
                        assert(first_bad_contract_entry(entries@, i as int));
                    }
                    return Err(CMConstructionContractError::UnableToDeserializeContractBalanceFromTreeValue(
                        contract_id, i, k, bytes_copy(value)));
                },
                Some(v) => {
                    balance = v;
                },
            }
        } else if array32_all(&k, 1) {
            match u64_from_le_bytes(value) {
                None => {
                    proof {
                        assert(first_bad_contract_entry(entries@, i as int));
                    }
                    return Err(CMConstructionContractError::UnableToDeserializeAllocsSumFromTreeValue(
                        contract_id, i, k, bytes_copy(value)));
                },
                Some(v) => {
                    allocs_sum = v;
                },
            }
        } else {
            match u128_from_le_bytes(value) {
                None => {
                    proof {
                        assert(first_bad_contract_entry(entries@, i as int));
                    }
                    return Err(CMConstructionContractError::UnableToDeserializeAllocValueFromTreeValue(
                        contract_id, i, k, bytes_copy(value)));
                },
                Some(v) => {
                    allocs.insert(k, v);
                },
            }
        }
        i = i + 1;
    }
    proof {
        assert(entries@.subrange(0, n as int) =~= entries@);
    }
    if allocs_sum > balance {
        return Err(CMConstructionContractError::AllocsSumExceedsTheContractBalance(contract_id, allocs_sum, balance));
    }
    Ok(CMContractBody::new(balance, ShadowSpace::new(allocs_sum, allocs)))
}

/// A stored account tree is loaded as is: a tree whose name is not an account key is skipped,
/// every other tree is well formed.
pub open spec fn account_tree_valid(t: NamedTree) -> bool {
    t.0@.len() == 32 ==> forall|i: int| 0 <= i < t.1@.len() ==> account_entry_ok(#[trigger] t.1@[i])
}

/// A stored contract tree is loaded as is: a tree whose name is not a contract id is skipped, every
/// other tree is well formed and its allocs sum does not exceed its balance.
pub open spec fn contract_tree_valid(t: NamedTree) -> bool {
    t.0@.len() == 32 ==> {
        &&& forall|i: int| 0 <= i < t.1@.len() ==> contract_entry_ok(#[trigger] t.1@[i])
        &&& contract_tree_body(t.1@).shadow_space.allocs_sum <= contract_tree_body(t.1@).balance
    }
}

/// The account bodies of the stored account trees named by an account key.
pub open spec fn accounts_loaded(trees: Seq<NamedTree>) -> Map<Seq<u8>, CMAccountBody>
    decreases trees.len(),
{
    if trees.len() == 0 {
        Map::empty()
    } else {
        let m = accounts_loaded(trees.drop_last());
        let t = trees.last();
        if t.0@.len() == 32 {
            m.insert(t.0@, account_tree_body(t.1@))
        } else {
            m
        }
    }
}

/// The contract bodies of the stored contract trees named by a contract id.
pub open spec fn contracts_loaded(trees: Seq<NamedTree>) -> Map<Seq<u8>, CMContractBodyView>
    decreases trees.len(),
{
    if trees.len() == 0 {
        Map::empty()
    } else {
        let m = contracts_loaded(trees.drop_last());
        let t = trees.last();
        if t.0@.len() == 32 {
            m.insert(t.0@, contract_tree_body(t.1@))
        } else {
            m
        }
    }
}

/// The error reported for an account tree that cannot be loaded.
pub open spec fn account_tree_error(t: NamedTree, e: CMConstructionAccountError) -> bool {
    exists|i: int| #[trigger] first_bad_account_entry(t.1@, i) && account_entry_fault(t.0@, i, t.1@[i], e)
}

/// The error reported for a contract tree that cannot be loaded.
pub open spec fn contract_tree_error(t: NamedTree, e: CMConstructionContractError) -> bool {
    ||| exists|i: int| #[trigger] first_bad_contract_entry(t.1@, i) && contract_entry_fault(t.0@, i, t.1@[i], e)
    ||| (forall|i: int| 0 <= i < t.1@.len() ==> contract_entry_ok(#[trigger] t.1@[i]))
        && (e matches CMConstructionContractError::AllocsSumExceedsTheContractBalance(c, s, b)
        && c@ == t.0@ && s == contract_tree_body(t.1@).shadow_space.allocs_sum
        && b == contract_tree_body(t.1@).balance && s > b)
}

/// `i` is the first stored tree that cannot be loaded, under the given validity.
pub open spec fn first_invalid_account_tree(trees: Seq<NamedTree>, i: int) -> bool {
    &&& 0 <= i < trees.len()
    &&& forall|j: int| 0 <= j < i ==> account_tree_valid(#[trigger] trees[j])
    &&& !account_tree_valid(trees[i])
}

/// `i` is the first stored contract tree that cannot be loaded.
pub open spec fn first_invalid_contract_tree(trees: Seq<NamedTree>, i: int) -> bool {
    &&& 0 <= i < trees.len()
    &&& forall|j: int| 0 <= j < i ==> contract_tree_valid(#[trigger] trees[j])
    &&& !contract_tree_valid(trees[i])
}

impl CoinManager {
    /// Rebuilds a coin manager from its stored account trees, then its stored contract trees, each
    /// with its name; trees whose name is not 32 bytes long are skipped. Fails on the first tree
    /// that cannot be loaded.
    pub fn new(account_trees: &Vec<NamedTree>, contract_trees: &Vec<NamedTree>) -> (r: Result<CoinManager, CMConstructionError>)
        ensures
            match r {
                Ok(cm) => (forall|i: int| 0 <= i < account_trees@.len() ==> account_tree_valid(#[trigger] account_trees@[i]))
                    && (forall|i: int| 0 <= i < contract_trees@.len() ==> contract_tree_valid(#[trigger] contract_trees@[i]))
                    && cm@ == CoinManagerView::with_permanent(accounts_loaded(account_trees@), contracts_loaded(contract_trees@)),
                Err(CMConstructionError::AccountConstructionError(e)) => exists|i: int|
                    #[trigger] first_invalid_account_tree(account_trees@, i) && account_tree_error(account_trees@[i], e),
                Err(CMConstructionError::ContractConstructionError(e)) =>
                    (forall|i: int| 0 <= i < account_trees@.len() ==> account_tree_valid(#[trigger] account_trees@[i]))
                    && exists|i: int| #[trigger] first_invalid_contract_tree(contract_trees@, i)
                        && contract_tree_error(contract_trees@[i], e),
            },
    {
        let mut accounts: KeyMap<CMAccountBody> = KeyMap::new();
        let n = account_trees.len();
        let mut i: usize = 0;
        while i < n
            invariant
                0 <= i <= n,
                n == account_trees@.len(),
                forall|j: int| 0 <= j < i ==> account_tree_valid(#[trigger] account_trees@[j]),
                accounts@ == accounts_loaded(account_trees@.subrange(0, i as int)),
            decreases n - i,
        {
            proof {
                assert(account_trees@.subrange(0, i + 1).drop_last() =~= account_trees@.subrange(0, i as int));
            }
            match bytes_to_array32(&account_trees[i].0) {
                None => {},
                Some(k) => {
                    match parse_account_tree(k, &account_trees[i].1) {
                        Err(e) => {
                            proof {
                                assert(first_invalid_account_tree(account_trees@, i as int));
                            }
                            return Err(CMConstructionError::AccountConstructionError(e));
                        },
                        Ok(b) => {
                            accounts.insert(k, b);
                        },
                    }
                },
            }
            i = i + 1;
        }
        let mut contracts: KeyMap<CMContractBody> = KeyMap::new();
        let m = contract_trees.len();
        let mut i: usize = 0;
        while i < m
            invariant
                0 <= i <= m,
                m == contract_trees@.len(),
                forall|j: int| 0 <= j < n ==> account_tree_valid(#[trigger] account_trees@[j]),
                n == account_trees@.len(),
                forall|j: int| 0 <= j < i ==> contract_tree_valid(#[trigger] contract_trees@[j]),
                contract_map_view(contracts@) == contracts_loaded(contract_trees@.subrange(0, i as int)),
            decreases m - i,
        {
            proof {
                assert(contract_trees@.subrange(0, i + 1).drop_last() =~= contract_trees@.subrange(0, i as int));
            }
            match bytes_to_array32(&contract_trees[i].0) {
                None => {},
                Some(c) => {
                    match parse_contract_tree(c, &contract_trees[i].1) {
                        Err(e) => {
                            proof {
                                assert(first_invalid_contract_tree(contract_trees@, i as int));
                            }
                            return Err(CMConstructionError::ContractConstructionError(e));
                        },
                        Ok(b) => {
                            let ghost before = contracts@;
                            let ghost bv = b@;
                            contracts.insert(c, b);
                            proof {
                                assert(contract_map_view(contracts@) =~= contract_map_view(before).insert(c@, bv));
                            }
                        },
                    }
                },
            }
            i = i + 1;
        }
        proof {
            assert(account_trees@.subrange(0, n as int) =~= account_trees@);
            assert(contract_trees@.subrange(0, m as int) =~= contract_trees@);
        }
        Ok(CoinManager::from_bodies(accounts, contracts))
    }
}

} // verus!
