use super::account_coin_holder::{AccountCoinHolder, AccountCoinHolderView};
use super::apply::{accounts_view, contracts_view};
use super::bodies::{CHAccountBody, CHAccountBodyView, CHContractBody, CHContractBodyView, ShadowSpace, ShadowSpaceView};
use super::coin_holder::CoinHolder;
use super::coin_holder_specs::CoinHolderView;
use super::contract_coin_holder::{ContractCoinHolder, ContractCoinHolderView};
use super::contract_ledger::ContractLedgerView;
use super::deltas::{AccountDeltaView, CHContractDeltaView};
use super::errors::{AccountCoinHolderConstructionError, CoinHolderConstructionError, ContractCoinHolderConstructionError};
use crate::codec::{bytes_copy, bytes_to_array32, le_value, u128_from_le_bytes, u64_from_le_bytes};
use crate::coin_manager::load::{
    account_entry_ok, all_bytes, array32_all, contract_entry_ok, first_bad_account_entry, first_bad_contract_entry,
    NamedTree, TreeEntries,
};
use crate::keymap::{Key, KeyMap};
use vstd::prelude::*;

verus! {

/// The account body that a well-formed account tree stores: the last balance and shadow allocs sum
/// written, zero where none is.
pub open spec fn account_tree_body(entries: Seq<(Vec<u8>, Vec<u8>)>) -> CHAccountBodyView
    decreases entries.len(),
{
    if entries.len() == 0 {
        CHAccountBodyView { balance: 0, shadow_allocs_sum: 0 }
    } else {
        let b = account_tree_body(entries.drop_last());
        let e = entries.last();
        if e.0@[0] == 0 {
            CHAccountBodyView { balance: le_value(e.1@) as u64, ..b }
        } else {
            CHAccountBodyView { shadow_allocs_sum: le_value(e.1@) as u128, ..b }
        }
    }
}

/// The error reported for an ill-formed account tree entry.
pub open spec fn account_entry_fault(k: Seq<u8>, i: int, e: (Vec<u8>, Vec<u8>), err: AccountCoinHolderConstructionError) -> bool {
    if e.0@.len() != 1 {
        err matches AccountCoinHolderConstructionError::UnableToDeserializeKeyBytesFromTreeKey(kk, ii, v)
            && kk@ == k && ii == i && v@ == e.0@
    } else if e.0@[0] == 0 {
        err matches AccountCoinHolderConstructionError::UnableToDeserializeAccountBalanceFromTreeValue(kk, ii, b, v)
            && kk@ == k && ii == i && b@ == e.0@ && v@ == e.1@
    } else if e.0@[0] == 1 {
        err matches AccountCoinHolderConstructionError::UnableToDeserializeAccountShadowAllocsSumFromTreeValue(kk, ii, b, v)
            && kk@ == k && ii == i && b@ == e.0@ && v@ == e.1@
    } else {
        err matches AccountCoinHolderConstructionError::InvalidTreeKeyEncountered(kk, v) && kk@ == k && v@ == e.0@
    }
}

/// The contract body that a well-formed contract tree stores: the last balance and allocs sum
/// written, zero where none is, and every allocation.
pub open spec fn contract_tree_body(entries: Seq<(Vec<u8>, Vec<u8>)>) -> CHContractBodyView
    decreases entries.len(),
{
    if entries.len() == 0 {
        CHContractBodyView { balance: 0, shadow_space: ShadowSpaceView::empty() }
    } else {
        let b = contract_tree_body(entries.drop_last());
        let e = entries.last();
        if e.0@ == all_bytes(32, 0) {
            CHContractBodyView { balance: le_value(e.1@) as u64, ..b }
        } else if e.0@ == all_bytes(32, 1) {
            CHContractBodyView { shadow_space: ShadowSpaceView { allocs_sum: le_value(e.1@) as u64, ..b.shadow_space }, ..b }
        } else {
            CHContractBodyView {
                shadow_space: ShadowSpaceView { allocs: b.shadow_space.allocs.insert(e.0@, le_value(e.1@) as u128), ..b.shadow_space },
                ..b
            }
        }
    }
}

/// The error reported for an ill-formed contract tree entry.
pub open spec fn contract_entry_fault(c: Seq<u8>, i: int, e: (Vec<u8>, Vec<u8>), err: ContractCoinHolderConstructionError) -> bool {
    if e.0@.len() != 32 {
        err matches ContractCoinHolderConstructionError::UnableToDeserializeKeyBytesFromTreeKey(cc, ii, v)
            && cc@ == c && ii == i && v@ == e.0@
    } else if e.0@ == all_bytes(32, 0) {
        err matches ContractCoinHolderConstructionError::UnableToDeserializeContractBalanceFromTreeValue(cc, ii, k, v)
            && cc@ == c && ii == i && k@ == e.0@ && v@ == e.1@
    } else if e.0@ == all_bytes(32, 1) {
        err matches ContractCoinHolderConstructionError::UnableToDeserializeAllocsSumFromTreeValue(cc, ii, k, v)
            && cc@ == c && ii == i && k@ == e.0@ && v@ == e.1@
    } else {
        err matches ContractCoinHolderConstructionError::UnableToDeserializeAllocValueFromTreeValue(cc, ii, k, v)
            && cc@ == c && ii == i && k@ == e.0@ && v@ == e.1@
    }
}

/// A stored account tree can be loaded: its name is an account key and its entries are well formed.
pub open spec fn account_tree_valid(t: NamedTree) -> bool {
    &&& t.0@.len() == 32
    &&& forall|i: int| 0 <= i < t.1@.len() ==> account_entry_ok(#[trigger] t.1@[i])
}

/// A stored contract tree can be loaded: its name is a contract id, its entries are well formed and
/// its allocs sum does not exceed its balance.
pub open spec fn contract_tree_valid(t: NamedTree) -> bool {
    &&& t.0@.len() == 32
    &&& forall|i: int| 0 <= i < t.1@.len() ==> contract_entry_ok(#[trigger] t.1@[i])
    &&& contract_tree_body(t.1@).shadow_space.allocs_sum <= contract_tree_body(t.1@).balance
}

/// The error reported for an account tree that cannot be loaded.
pub open spec fn account_tree_error(t: NamedTree, e: AccountCoinHolderConstructionError) -> bool {
    if t.0@.len() != 32 {
        e matches AccountCoinHolderConstructionError::UnableToDeserializeAccountKeyBytesFromTreeName(v) && v@ == t.0@
    } else {
        exists|i: int| #[trigger] first_bad_account_entry(t.1@, i) && account_entry_fault(t.0@, i, t.1@[i], e)
    }
}

/// The error reported for a contract tree that cannot be loaded.
pub open spec fn contract_tree_error(t: NamedTree, e: ContractCoinHolderConstructionError) -> bool {
    if t.0@.len() != 32 {
        e matches ContractCoinHolderConstructionError::UnableToDeserializeContractIDBytesFromTreeName(v) && v@ == t.0@
    } else {
        ||| exists|i: int| #[trigger] first_bad_contract_entry(t.1@, i) && contract_entry_fault(t.0@, i, t.1@[i], e)
        ||| (forall|i: int| 0 <= i < t.1@.len() ==> contract_entry_ok(#[trigger] t.1@[i]))
            && (e matches ContractCoinHolderConstructionError::AllocsSumExceedsTheContractBalance(c, s, b)
            && c@ == t.0@ && s == contract_tree_body(t.1@).shadow_space.allocs_sum
            && b == contract_tree_body(t.1@).balance && s > b)
    }
}

/// `i` is the first stored account tree that cannot be loaded.
pub open spec fn first_invalid_account_tree(trees: Seq<NamedTree>, i: int) -> bool {
    &&& 0 <= i < trees.len()
    &&& forall|j: int| 0 <= j < i ==> account_tree_valid(#[trigger] trees[j])
    &&& !account_tree_valid(trees[i])
}

/// `i` is the first stored contract tree that cannot be loaded.
pub open spec fn first_invalid_contract_tree(trees: Seq<NamedTree>, i: int) -> bool {
    &&& 0 <= i < trees.len()
    &&& forall|j: int| 0 <= j < i ==> contract_tree_valid(#[trigger] trees[j])
    &&& !contract_tree_valid(trees[i])
}

/// The account bodies of the stored account trees; a tree with no entry is left out unless
/// `keep_empty`.
pub open spec fn accounts_loaded(trees: Seq<NamedTree>, keep_empty: bool) -> Map<Seq<u8>, CHAccountBodyView>
    decreases trees.len(),
{
    if trees.len() == 0 {
        Map::empty()
    } else {
        let m = accounts_loaded(trees.drop_last(), keep_empty);
        let t = trees.last();
        if keep_empty || t.1@.len() > 0 {
            m.insert(t.0@, account_tree_body(t.1@))
        } else {
            m
        }
    }
}

/// The contract bodies of the stored contract trees.
pub open spec fn contracts_loaded(trees: Seq<NamedTree>) -> Map<Seq<u8>, CHContractBodyView>
    decreases trees.len(),
{
    if trees.len() == 0 {
        Map::empty()
    } else {
        contracts_loaded(trees.drop_last()).insert(trees.last().0@, contract_tree_body(trees.last().1@))
    }
}

/// Rebuilds an account body from the entries of its stored tree; fails on the first ill-formed entry.
pub fn parse_account_tree(account_key: Key, entries: &TreeEntries) -> (r: Result<CHAccountBody, AccountCoinHolderConstructionError>)
    ensures
        match r {
            Ok(b) => (forall|i: int| 0 <= i < entries@.len() ==> account_entry_ok(#[trigger] entries@[i]))
                && b@ == account_tree_body(entries@),
            Err(e) => exists|i: int| #[trigger] first_bad_account_entry(entries@, i)
                && account_entry_fault(account_key@, i, entries@[i], e),
        },
{
    let mut body = CHAccountBody::new(0, 0);
    let n = entries.len();
    let mut i: usize = 0;
    while i < n
        invariant
            0 <= i <= n,
            n == entries@.len(),
            forall|j: int| 0 <= j < i ==> account_entry_ok(#[trigger] entries@[j]),
            body@ == account_tree_body(entries@.subrange(0, i as int)),
        decreases n - i,
    {
        let key = &entries[i].0;
        let value = &entries[i].1;
        proof {
            assert(entries@.subrange(0, i + 1).drop_last() =~= entries@.subrange(0, i as int));
        }
        if key.len() != 1 {
            proof {
                assert(first_bad_account_entry(entries@, i as int));
            }
            return Err(AccountCoinHolderConstructionError::UnableToDeserializeKeyBytesFromTreeKey(account_key, i, bytes_copy(key)));
        }
        if key[0] == 0 {
            match u64_from_le_bytes(value) {
                None => {
                    let b: [u8; 1] = [0u8; 1];
                    proof {
                        assert(b@ =~= key@);
                        assert(first_bad_account_entry(entries@, i as int));
                    }
                    return Err(AccountCoinHolderConstructionError::UnableToDeserializeAccountBalanceFromTreeValue(
                        account_key, i, b, bytes_copy(value)));
                },
                Some(v) => {
                    body.update_balance(v);
                },
            }
        } else if key[0] == 1 {
            match u128_from_le_bytes(value) {
                None => {
                    let b: [u8; 1] = [1u8; 1];
                    proof {
                        assert(b@ =~= key@);
                        assert(first_bad_account_entry(entries@, i as int));
                    }
                    return Err(AccountCoinHolderConstructionError::UnableToDeserializeAccountShadowAllocsSumFromTreeValue(
                        account_key, i, b, bytes_copy(value)));
                },
                Some(v) => {
                    body.update_shadow_allocs_sum(v);
                },
            }
        } else {
            proof {
                assert(first_bad_account_entry(entries@, i as int));
            }
            return Err(AccountCoinHolderConstructionError::InvalidTreeKeyEncountered(account_key, bytes_copy(key)));
        }
        i = i + 1;
    }
    proof {
        assert(entries@.subrange(0, n as int) =~= entries@);
    }
    Ok(body)
}

/// Rebuilds a contract body from the entries of its stored tree; fails on the first ill-formed entry,
/// or when the allocs sum exceeds the contract balance.
pub fn parse_contract_tree(contract_id: Key, entries: &TreeEntries) -> (r: Result<CHContractBody, ContractCoinHolderConstructionError>)
    ensures
        match r {
            Ok(b) => (forall|i: int| 0 <= i < entries@.len() ==> contract_entry_ok(#[trigger] entries@[i]))
                && contract_tree_body(entries@).shadow_space.allocs_sum <= contract_tree_body(entries@).balance
                && b@ == contract_tree_body(entries@),
            Err(e) => (exists|i: int| #[trigger] first_bad_contract_entry(entries@, i)
                && contract_entry_fault(contract_id@, i, entries@[i], e)) || (
                (forall|i: int| 0 <= i < entries@.len() ==> contract_entry_ok(#[trigger] entries@[i]))
                && e == ContractCoinHolderConstructionError::AllocsSumExceedsTheContractBalance(
                    contract_id,
                    contract_tree_body(entries@).shadow_space.allocs_sum,
                    contract_tree_body(entries@).balance,
                )
                && contract_tree_body(entries@).shadow_space.allocs_sum > contract_tree_body(entries@).balance),
        },
{
    let mut balance: u64 = 0;
    let mut allocs_sum: u64 = 0;
    let mut allocs: KeyMap<u128> = KeyMap::new();
    let n = entries.len();
    let mut i: usize = 0;
    while i < n
        invariant
            0 <= i <= n,
            n == entries@.len(),
            forall|j: int| 0 <= j < i ==> contract_entry_ok(#[trigger] entries@[j]),
            contract_tree_body(entries@.subrange(0, i as int)) == (CHContractBodyView {
                balance,
                shadow_space: ShadowSpaceView { allocs_sum, allocs: allocs@ },
            }),
        decreases n - i,
    {
        let key = &entries[i].0;
        let value = &entries[i].1;
        proof {
            assert(entries@.subrange(0, i + 1).drop_last() =~= entries@.subrange(0, i as int));
        }
        let k = match bytes_to_array32(key) {
            None => {
                proof {
                    assert(first_bad_contract_entry(entries@, i as int));
                }
                return Err(ContractCoinHolderConstructionError::UnableToDeserializeKeyBytesFromTreeKey(contract_id, i, bytes_copy(key)));
            },
            Some(k) => k,
        };
        if array32_all(&k, 0) {
            match u64_from_le_bytes(value) {
                None => {
                    proof {
                        assert(first_bad_contract_entry(entries@, i as int));
                    }
                    return Err(ContractCoinHolderConstructionError::UnableToDeserializeContractBalanceFromTreeValue(
                        contract_id, i, k, bytes_copy(value)));
                },
                Some(v) => {
                    balance = v;
                },
            }
        } else if array32_all(&k, 1) {
            match u64_from_le_bytes(value) {
                None => {
                    proof {
                        assert(first_bad_contract_entry(entries@, i as int));
                    }
                    return Err(ContractCoinHolderConstructionError::UnableToDeserializeAllocsSumFromTreeValue(
                        contract_id, i, k, bytes_copy(value)));
                },
                Some(v) => {
                    allocs_sum = v;
                },
            }
        } else {
            match u128_from_le_bytes(value) {
                None => {
                    proof {
                        assert(first_bad_contract_entry(entries@, i as int));
                    }
                    return Err(ContractCoinHolderConstructionError::UnableToDeserializeAllocValueFromTreeValue(
                        contract_id, i, k, bytes_copy(value)));
                },
                Some(v) => {
                    allocs.insert(k, v);
                },
            }
        }
        i = i + 1;
    }
    proof {
        assert(entries@.subrange(0, n as int) =~= entries@);
    }
    if allocs_sum > balance {
        return Err(ContractCoinHolderConstructionError::AllocsSumExceedsTheContractBalance(contract_id, allocs_sum, balance));
    }
    Ok(CHContractBody::new(balance, ShadowSpace::new(allocs_sum, allocs)))
}

/// Loads the account bodies of stored account trees; a tree with no entry is left out unless
/// `keep_empty`. Fails on the first tree that cannot be loaded.
pub fn load_accounts(trees: &Vec<NamedTree>, keep_empty: bool) -> (r: Result<KeyMap<CHAccountBody>, AccountCoinHolderConstructionError>)
    ensures
        match r {
            Ok(m) => (forall|i: int| 0 <= i < trees@.len() ==> account_tree_valid(#[trigger] trees@[i]))
                && accounts_view(m@) == accounts_loaded(trees@, keep_empty),
            Err(e) => exists|i: int| #[trigger] first_invalid_account_tree(trees@, i) && account_tree_error(trees@[i], e),
        },
{
    let mut accounts: KeyMap<CHAccountBody> = KeyMap::new();
    let n = trees.len();
    let mut i: usize = 0;
    proof {
        assert(accounts_view(accounts@) =~= Map::empty());
    }
    while i < n
        invariant
            0 <= i <= n,
            n == trees@.len(),
            forall|j: int| 0 <= j < i ==> account_tree_valid(#[trigger] trees@[j]),
            accounts_view(accounts@) == accounts_loaded(trees@.subrange(0, i as int), keep_empty),
        decreases n - i,
    {
        proof {
            assert(trees@.subrange(0, i + 1).drop_last() =~= trees@.subrange(0, i as int));
        }
        let k = match bytes_to_array32(&trees[i].0) {
            None => {
                proof {
                    assert(first_invalid_account_tree(trees@, i as int));
                }
                return Err(AccountCoinHolderConstructionError::UnableToDeserializeAccountKeyBytesFromTreeName(bytes_copy(&trees[i].0)));
            },
            Some(k) => k,
        };
        match parse_account_tree(k, &trees[i].1) {
            Err(e) => {
                proof {
                    assert(first_invalid_account_tree(trees@, i as int));
                }
                return Err(e);
            },
            Ok(b) => {
                if keep_empty || trees[i].1.len() > 0 {
                    let ghost before = accounts@;
                    accounts.insert(k, b);
                    proof {
                        assert(accounts_view(accounts@) =~= accounts_view(before).insert(k@, b@));
                    }
                }
            },
        }
        i = i + 1;
    }
    proof {
        assert(trees@.subrange(0, n as int) =~= trees@);
    }
    Ok(accounts)
}

/// Loads the contract bodies of stored contract trees. Fails on the first tree that cannot be loaded.
pub fn load_contracts(trees: &Vec<NamedTree>) -> (r: Result<KeyMap<CHContractBody>, ContractCoinHolderConstructionError>)
    ensures
        match r {
            Ok(m) => (forall|i: int| 0 <= i < trees@.len() ==> contract_tree_valid(#[trigger] trees@[i]))
                && contracts_view(m@) == contracts_loaded(trees@),
            Err(e) => exists|i: int| #[trigger] first_invalid_contract_tree(trees@, i) && contract_tree_error(trees@[i], e),
        },
{
    let mut contracts: KeyMap<CHContractBody> = KeyMap::new();
    let n = trees.len();
    let mut i: usize = 0;
    proof {
        assert(contracts_view(contracts@) =~= Map::empty());
    }
    while i < n
        invariant
            0 <= i <= n,
            n == trees@.len(),
            forall|j: int| 0 <= j < i ==> contract_tree_valid(#[trigger] trees@[j]),
            contracts_view(contracts@) == contracts_loaded(trees@.subrange(0, i as int)),
        decreases n - i,
    {
        proof {
            assert(trees@.subrange(0, i + 1).drop_last() =~= trees@.subrange(0, i as int));
        }
        let c = match bytes_to_array32(&trees[i].0) {
            None => {
                proof {
                    assert(first_invalid_contract_tree(trees@, i as int));
                }
                return Err(ContractCoinHolderConstructionError::UnableToDeserializeContractIDBytesFromTreeName(bytes_copy(&trees[i].0)));
            },
            Some(c) => c,
        };
        match parse_contract_tree(c, &trees[i].1) {
            Err(e) => {
                proof {
                    assert(first_invalid_contract_tree(trees@, i as int));
                }
                return Err(e);
            },
            Ok(b) => {
                let ghost before = contracts@;
                let ghost bv = b@;
                contracts.insert(c, b);
                proof {
                    assert(contracts_view(contracts@) =~= contracts_view(before).insert(c@, bv));
                }
            },
        }
        i = i + 1;
    }
    proof {
        assert(trees@.subrange(0, n as int) =~= trees@);
    }
    Ok(contracts)
}

impl AccountCoinHolder {
    /// Rebuilds an account coin holder from its stored trees, each named by its account key; every
    /// tree, empty ones included, gives an account. Fails on the first tree that cannot be loaded.
    pub fn new(trees: &Vec<NamedTree>) -> (r: Result<AccountCoinHolder, AccountCoinHolderConstructionError>)
        ensures
            match r {
                Ok(h) => (forall|i: int| 0 <= i < trees@.len() ==> account_tree_valid(#[trigger] trees@[i]))
                    && h@ == (AccountCoinHolderView {
                        accounts: accounts_loaded(trees@, true),
                        delta: AccountDeltaView::empty(),
                        backup: AccountDeltaView::empty(),
                    }),
                Err(e) => exists|i: int| #[trigger] first_invalid_account_tree(trees@, i) && account_tree_error(trees@[i], e),
            },
    {
        match load_accounts(trees, true) {
            Ok(m) => Ok(AccountCoinHolder::from_bodies(m)),
            Err(e) => Err(e),
        }
    }
}

impl ContractCoinHolder {
    /// Rebuilds a contract coin holder from its stored trees, each named by its contract id. Fails on
    /// the first tree that cannot be loaded.
    pub fn new(trees: &Vec<NamedTree>) -> (r: Result<ContractCoinHolder, ContractCoinHolderConstructionError>)
        ensures
            match r {
                Ok(h) => (forall|i: int| 0 <= i < trees@.len() ==> contract_tree_valid(#[trigger] trees@[i]))
                    && h@ == (ContractCoinHolderView {
                        ledger: ContractLedgerView { contracts: contracts_loaded(trees@), delta: CHContractDeltaView::empty() },
                        backup: CHContractDeltaView::empty(),
                    }),
                Err(e) => exists|i: int| #[trigger] first_invalid_contract_tree(trees@, i) && contract_tree_error(trees@[i], e),
            },
    {
        match load_contracts(trees) {
            Ok(m) => Ok(ContractCoinHolder::from_bodies(m)),
            Err(e) => Err(e),
        }
    }
}

impl CoinHolder {
    /// Rebuilds a coin holder from its stored account trees, then its stored contract trees; an
    /// account tree with no entry gives no account. Fails on the first tree that cannot be loaded.
    pub fn new(account_trees: &Vec<NamedTree>, contract_trees: &Vec<NamedTree>) -> (r: Result<CoinHolder, CoinHolderConstructionError>)
        ensures
            match r {
                Ok(h) => (forall|i: int| 0 <= i < account_trees@.len() ==> account_tree_valid(#[trigger] account_trees@[i]))
                    && (forall|i: int| 0 <= i < contract_trees@.len() ==> contract_tree_valid(#[trigger] contract_trees@[i]))
                    && h@ == (CoinHolderView {
                        accounts: AccountCoinHolderView {
                            accounts: accounts_loaded(account_trees@, false),
                            delta: AccountDeltaView::empty(),
                            backup: AccountDeltaView::empty(),
                        },
                        contracts: ContractCoinHolderView {
                            ledger: ContractLedgerView { contracts: contracts_loaded(contract_trees@), delta: CHContractDeltaView::empty() },
                            backup: CHContractDeltaView::empty(),
                        },
                    }),
                Err(CoinHolderConstructionError::AccountCoinHolderConstructionError(e)) => exists|i: int|
                    #[trigger] first_invalid_account_tree(account_trees@, i) && account_tree_error(account_trees@[i], e),
                Err(CoinHolderConstructionError::ContractCoinHolderConstructionError(e)) =>
                    (forall|i: int| 0 <= i < account_trees@.len() ==> account_tree_valid(#[trigger] account_trees@[i]))
                    && exists|i: int| #[trigger] first_invalid_contract_tree(contract_trees@, i)
                        && contract_tree_error(contract_trees@[i], e),
            },
    {
        let accounts = match load_accounts(account_trees, false) {
            Ok(m) => m,
            Err(e) => {
                return Err(CoinHolderConstructionError::AccountCoinHolderConstructionError(e));
            },
        };
        let contracts = match load_contracts(contract_trees) {
            Ok(m) => m,
            Err(e) => {
                return Err(CoinHolderConstructionError::ContractCoinHolderConstructionError(e));
            },
        };
        let h = CoinHolder::from_bodies(accounts, contracts);
        assert(h@ =~= CoinHolderView { accounts: h@.accounts, contracts: h@.contracts });
        Ok(h)
    }
}

} // verus!
