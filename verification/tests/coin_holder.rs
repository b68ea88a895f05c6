use cube::coin_holder::account_coin_holder::AccountCoinHolder;
use cube::coin_holder::apply::CHDiskOp;
use cube::coin_holder::coin_holder::CoinHolder;
use cube::coin_holder::contract_coin_holder::ContractCoinHolder;
use cube::coin_holder::errors::{
    AccountBalanceDownError, AccountCoinHolderConstructionError, AccountCoinHolderRegisterError,
    AccountShadowAllocsSumDownError, CHAccountBalanceDownError, CHAccountBalanceUpError,
    CHContractBalanceDownError,
    CoinHolderConstructionError, ContractBalanceDownError, ContractCoinHolderConstructionError,
    ContractCoinHolderRegisterContractError, ShadowAllocAccountError, ShadowAllocDownAllError,
    ShadowAllocDownError, ShadowAllocUpAllError, ShadowAllocUpError, ShadowDeallocAccountError,
};
use cube::coin_manager::load::NamedTree;

const SATI: u128 = 100_000_000;

fn key(b: u8) -> [u8; 32] {
    [b; 32]
}

fn account_tree(k: [u8; 32], balance: u64, sum: u128) -> NamedTree {
    (
        k.to_vec(),
        vec![
            (vec![0u8], balance.to_le_bytes().to_vec()),
            (vec![1u8], sum.to_le_bytes().to_vec()),
        ],
    )
}

fn contract_tree(c: [u8; 32], balance: u64, allocs_sum: u64, allocs: &[([u8; 32], u128)]) -> NamedTree {
    let mut entries = vec![
        (vec![0u8; 32], balance.to_le_bytes().to_vec()),
        (vec![1u8; 32], allocs_sum.to_le_bytes().to_vec()),
    ];
    for (a, v) in allocs {
        entries.push((a.to_vec(), v.to_le_bytes().to_vec()));
    }
    (c.to_vec(), entries)
}

/// A holder with accounts A and B (balance 1000 each) and contract C (balance 500), all permanent.
fn holder() -> CoinHolder {
    CoinHolder::new(
        &vec![account_tree(key(0xA), 1000, 0), account_tree(key(0xB), 1000, 0)],
        &vec![contract_tree(key(0xC), 500, 0, &[])],
    )
    .unwrap()
}

fn apply(h: &mut CoinHolder) -> Vec<CHDiskOp> {
    let mut ops = Vec::new();
    h.apply_changes(&mut ops).unwrap();
    h.flush_delta();
    ops
}

#[test]
fn ch_loads_stored_trees() {
    let a = key(0xA);
    let c = key(0xC);
    let h = CoinHolder::new(
        &vec![account_tree(a, 700, 3 * SATI), (key(0xE).to_vec(), vec![])],
        &vec![contract_tree(c, 90, 3, &[(a, 3 * SATI)])],
    )
    .unwrap();
    assert_eq!(h.get_account_balance(a), Some(700));
    assert_eq!(h.get_account_shadow_allocs_sum_of_all_contracts_in_sati_satoshis(a), Some(3 * SATI));
    assert_eq!(h.get_account_shadow_allocs_sum_of_all_contracts_in_satoshis(a), Some(3));
    assert_eq!(h.get_contract_balance(c), Some(90));
    assert_eq!(h.get_contract_allocs_sum_in_satoshis(c), Some(3));
    assert_eq!(h.get_contract_num_allocs(c), Some(1));
    assert_eq!(h.get_account_shadow_alloc_value_of_a_contract_in_satoshis(c, a), Some(3));
    // An account tree with no entry gives no account to the coin holder.
    assert!(!h.is_account_registered(key(0xE)));
    // The account coin holder alone keeps it, with zero values.
    let ah = AccountCoinHolder::new(&vec![(key(0xE).to_vec(), vec![])]).unwrap();
    assert!(ah.is_account_registered(key(0xE)));
    assert_eq!(ah.get_account_balance(key(0xE)), Some(0));
}

#[test]
fn ch_bad_tree_names_are_refused() {
    let r = CoinHolder::new(&vec![(vec![1, 2, 3], vec![])], &vec![]);
    match r {
        Err(CoinHolderConstructionError::AccountCoinHolderConstructionError(
            AccountCoinHolderConstructionError::UnableToDeserializeAccountKeyBytesFromTreeName(v),
        )) => assert_eq!(v, vec![1, 2, 3]),
        other => panic!("unexpected: {:?}", other.err()),
    }
    let r = CoinHolder::new(&vec![], &vec![(vec![9], vec![])]);
    assert!(matches!(
        r,
        Err(CoinHolderConstructionError::ContractCoinHolderConstructionError(
            ContractCoinHolderConstructionError::UnableToDeserializeContractIDBytesFromTreeName(_)
        ))
    ));
}

#[test]
fn ch_bad_tree_entries_are_refused() {
    let a = key(0xA);
    assert!(matches!(
        AccountCoinHolder::new(&vec![(a.to_vec(), vec![(vec![3u8], vec![0u8; 8])])]),
        Err(AccountCoinHolderConstructionError::InvalidTreeKeyEncountered(_, _))
    ));
    assert!(matches!(
        AccountCoinHolder::new(&vec![(a.to_vec(), vec![(vec![0u8], vec![0u8; 2])])]),
        Err(AccountCoinHolderConstructionError::UnableToDeserializeAccountBalanceFromTreeValue(_, 0, [0], _))
    ));
    assert!(matches!(
        AccountCoinHolder::new(&vec![(a.to_vec(), vec![(vec![1u8], vec![0u8; 2])])]),
        Err(AccountCoinHolderConstructionError::UnableToDeserializeAccountShadowAllocsSumFromTreeValue(_, 0, [1], _))
    ));
    assert!(matches!(
        AccountCoinHolder::new(&vec![(a.to_vec(), vec![(vec![], vec![])])]),
        Err(AccountCoinHolderConstructionError::UnableToDeserializeKeyBytesFromTreeKey(_, 0, _))
    ));
    let c = key(0xC);
    match ContractCoinHolder::new(&vec![contract_tree(c, 5, 6, &[])]) {
        Err(ContractCoinHolderConstructionError::AllocsSumExceedsTheContractBalance(cc, s, b)) => {
            assert_eq!(cc, c);
            assert_eq!(s, 6);
            assert_eq!(b, 5);
        }
        other => panic!("unexpected: {:?}", other.err()),
    }
    assert!(matches!(
        ContractCoinHolder::new(&vec![(c.to_vec(), vec![(vec![7u8; 32], vec![0u8; 8])])]),
        Err(ContractCoinHolderConstructionError::UnableToDeserializeAllocValueFromTreeValue(_, 0, _, _))
    ));
}

#[test]
fn ch_register_then_apply() {
    let mut h = CoinHolder::new(&vec![], &vec![]).unwrap();
    h.register_account(key(0xA)).unwrap();
    assert!(matches!(
        h.register_account(key(0xA)),
        Err(AccountCoinHolderRegisterError::AccountHasJustBeenEphemerallyRegistered(_))
    ));
    h.register_contract(key(0xC)).unwrap();
    assert!(matches!(
        h.register_contract(key(0xC)),
        Err(ContractCoinHolderRegisterContractError::ContractHasJustBeenEphemerallyRegistered(_))
    ));
    assert_eq!(h.get_account_balance(key(0xA)), None);
    let ops = apply(&mut h);
    assert!(h.is_account_registered(key(0xA)));
    assert!(h.is_contract_registered(key(0xC)));
    assert_eq!(h.get_account_balance(key(0xA)), Some(0));
    assert_eq!(h.get_contract_balance(key(0xC)), Some(0));
    assert!(ops.iter().any(|op| matches!(op, CHDiskOp::RegisterAccount(k) if *k == key(0xA))));
    assert!(ops.iter().any(|op| matches!(op, CHDiskOp::PutContractBalance(k, 0) if *k == key(0xC))));
    assert!(matches!(
        h.register_account(key(0xA)),
        Err(AccountCoinHolderRegisterError::AccountIsAlreadyPermanentlyRegistered(_))
    ));
    assert!(matches!(
        h.register_contract(key(0xC)),
        Err(ContractCoinHolderRegisterContractError::ContractIsAlreadyPermanentlyRegistered(_))
    ));
}

#[test]
fn ch_balances_move_and_persist() {
    let mut h = holder();
    h.account_balance_up(key(0xA), 20).unwrap();
    h.account_balance_down(key(0xA), 5).unwrap();
    h.contract_balance_up(key(0xC), 100).unwrap();
    assert_eq!(h.get_account_balance(key(0xA)), Some(1015));
    assert_eq!(h.get_contract_balance(key(0xC)), Some(600));
    let ops = apply(&mut h);
    assert_eq!(h.get_account_balance(key(0xA)), Some(1015));
    assert_eq!(h.get_contract_balance(key(0xC)), Some(600));
    assert!(ops.iter().any(|op| matches!(op, CHDiskOp::PutAccountBalance(k, 1015) if *k == key(0xA))));
    assert!(ops.iter().any(|op| matches!(op, CHDiskOp::PutContractBalance(k, 600) if *k == key(0xC))));
}

#[test]
fn ch_balance_errors() {
    let mut h = holder();
    assert!(matches!(
        h.account_balance_up(key(0xD), 1),
        Err(CHAccountBalanceUpError::UnableToGetAccountBalance(_))
    ));
    assert!(matches!(
        h.account_balance_down(key(0xA), 1001),
        Err(CHAccountBalanceDownError::AccountBalanceWouldGoBelowZero(_, 1000, 1001))
    ));
    assert!(matches!(
        h.contract_balance_down(key(0xC), 501),
        Err(CHContractBalanceDownError::ContractBalanceWouldGoBelowZero(_, 500, 501))
    ));
}

#[test]
fn ch_shadow_up_all_and_down_all_split_proportionally() {
    let (a, b, c) = (key(0xA), key(0xB), key(0xC));
    let mut h = holder();
    h.shadow_alloc_account(c, a).unwrap();
    h.shadow_alloc_account(c, b).unwrap();
    h.shadow_up(c, a, 30).unwrap();
    h.shadow_up(c, b, 10).unwrap();
    assert_eq!(h.get_contract_allocs_sum_in_satoshis(c), Some(40));
    assert_eq!(h.shadow_up_all(c, 20).unwrap(), 2);
    assert_eq!(h.get_account_shadow_alloc_value_of_a_contract_in_satoshis(c, a), Some(45));
    assert_eq!(h.get_account_shadow_alloc_value_of_a_contract_in_satoshis(c, b), Some(15));
    assert_eq!(h.get_account_shadow_allocs_sum_of_all_contracts_in_satoshis(a), Some(45));
    assert_eq!(h.get_contract_allocs_sum_in_satoshis(c), Some(60));
    assert_eq!(h.shadow_down_all(c, 30).unwrap(), 2);
    assert_eq!(h.get_contract_allocs_sum_in_satoshis(c), Some(30));
    assert_eq!(
        h.get_account_shadow_alloc_value_of_a_contract_in_sati_satoshis(c, a),
        Some(45 * SATI - 45 * SATI * 30 * SATI / (60 * SATI))
    );
    assert_eq!(
        h.get_account_shadow_alloc_value_of_a_contract_in_sati_satoshis(c, b),
        Some(15 * SATI - 15 * SATI * 30 * SATI / (60 * SATI))
    );
    let ops = apply(&mut h);
    assert_eq!(h.get_account_shadow_allocs_sum_of_all_contracts_in_sati_satoshis(a), Some(2_250_000_000));
    assert_eq!(h.get_account_shadow_alloc_value_of_a_contract_in_sati_satoshis(c, b), Some(750_000_000));
    assert!(ops.iter().any(|op| matches!(op, CHDiskOp::PutContractAllocsSum(k, 30) if *k == c)));
}

#[test]
fn ch_shadow_errors() {
    let (a, c) = (key(0xA), key(0xC));
    let mut h = holder();
    assert!(matches!(
        h.shadow_up(c, a, 1),
        Err(ShadowAllocUpError::UnableToGetAccountShadowAllocValue(_, _))
    ));
    h.shadow_alloc_account(c, a).unwrap();
    assert!(matches!(
        h.shadow_alloc_account(c, a),
        Err(ShadowAllocAccountError::AccountHasJustBeenEphemerallyAllocated(_, _))
    ));
    assert!(matches!(
        h.shadow_up_all(c, 1),
        Err(ShadowAllocUpAllError::OperationNotPossibleWithZeroAllocsSum(_))
    ));
    assert!(matches!(
        h.shadow_down_all(c, 1),
        Err(ShadowAllocDownAllError::OperationNotPossibleWithZeroAllocsSum(_))
    ));
    match h.shadow_up(c, a, 501) {
        Err(ShadowAllocUpError::AllocsSumExceedsTheContractBalance(cc, s, bal)) => {
            assert_eq!(cc, c);
            assert_eq!(s, 501);
            assert_eq!(bal, 500);
        }
        other => panic!("unexpected: {:?}", other),
    }
    h.shadow_up(c, a, 10).unwrap();
    assert!(matches!(
        h.shadow_down(c, a, 11),
        Err(ShadowAllocDownError::AccountShadowAllocValueWouldGoBelowZero(_, _, _, _))
    ));
    assert!(matches!(
        h.shadow_down_all(c, 11),
        Err(ShadowAllocDownAllError::AllocsSumWouldGoBelowZero(_, 10, 11))
    ));
    assert!(matches!(
        h.shadow_up_all(c, 491),
        Err(ShadowAllocUpAllError::AllocsSumExceedsTheContractBalance(_, 501, 500))
    ));
    assert!(matches!(
        h.shadow_dealloc_account(c, a),
        Err(ShadowDeallocAccountError::AccountHasJustBeenEphemerallyAllocated(_, _))
    ));
}

#[test]
fn ch_shadow_up_then_down_restores_allocation() {
    let (a, c) = (key(0xA), key(0xC));
    let mut h = holder();
    h.shadow_alloc_account(c, a).unwrap();
    apply(&mut h);
    h.shadow_up(c, a, 40).unwrap();
    h.shadow_down(c, a, 40).unwrap();
    assert_eq!(h.get_account_shadow_alloc_value_of_a_contract_in_sati_satoshis(c, a), Some(0));
    assert_eq!(h.get_contract_allocs_sum_in_satoshis(c), Some(0));
    assert_eq!(h.get_account_shadow_allocs_sum_of_all_contracts_in_sati_satoshis(a), Some(0));
}

#[test]
fn ch_dealloc_flow() {
    let (a, c) = (key(0xA), key(0xC));
    let mut h = holder();
    h.shadow_alloc_account(c, a).unwrap();
    h.shadow_up(c, a, 5).unwrap();
    apply(&mut h);
    assert!(matches!(
        h.shadow_dealloc_account(c, a),
        Err(ShadowDeallocAccountError::AllocValueIsNonZero(_, _))
    ));
    h.shadow_down(c, a, 5).unwrap();
    h.shadow_dealloc_account(c, a).unwrap();
    assert_eq!(h.get_account_shadow_alloc_value_of_a_contract_in_sati_satoshis(c, a), None);
    // Once deallocated, the allocation reads as absent.
    assert!(matches!(
        h.shadow_dealloc_account(c, a),
        Err(ShadowDeallocAccountError::UnableToGetAccountAllocValue(_, _))
    ));
    assert!(matches!(
        h.shadow_alloc_account(c, a),
        Err(ShadowAllocAccountError::AccountHasJustBeenEphemerallyDeallocated(_, _))
    ));
    assert!(matches!(
        h.shadow_dealloc_account(c, key(0xB)),
        Err(ShadowDeallocAccountError::UnableToGetAccountAllocValue(_, _))
    ));
    // Applying saves the deallocation: the allocation is gone and its stored entry is deleted.
    let mut ops = Vec::new();
    h.apply_changes(&mut ops).unwrap();
    assert_eq!(h.get_contract_num_allocs(c), Some(0));
    assert_eq!(h.get_account_shadow_alloc_value_of_a_contract_in_sati_satoshis(c, a), None);
    assert!(ops.iter().any(|op| matches!(op, CHDiskOp::RemoveShadowAlloc(cc, aa) if *cc == c && *aa == a)));
}

#[test]
fn ch_rollback_restores_last_execution() {
    let (a, c) = (key(0xA), key(0xC));
    let mut h = holder();
    h.pre_execution();
    h.account_balance_up(a, 1).unwrap();
    h.pre_execution();
    h.account_balance_up(a, 10).unwrap();
    h.shadow_alloc_account(c, a).unwrap();
    assert_eq!(h.get_account_balance(a), Some(1011));
    h.rollback_last();
    assert_eq!(h.get_account_balance(a), Some(1001));
    assert_eq!(h.get_account_shadow_alloc_value_of_a_contract_in_sati_satoshis(c, a), None);
}

#[test]
fn ach_account_coin_holder_operations() {
    let a = key(0xA);
    let mut ah = AccountCoinHolder::new(&vec![account_tree(a, 100, 2 * SATI)]).unwrap();
    assert_eq!(ah.get_account_shadow_allocs_sum_in_satoshis(a), Some(2));
    ah.account_balance_up(a, 50).unwrap();
    assert!(matches!(
        ah.account_balance_down(a, 151),
        Err(AccountBalanceDownError::AccountBalanceWouldGoBelowZero(_, 150, 151))
    ));
    ah.account_shadow_allocs_sum_up(a, SATI).unwrap();
    assert_eq!(ah.get_account_shadow_allocs_sum_in_sati_satoshis(a), Some(3 * SATI));
    assert!(matches!(
        ah.account_shadow_allocs_sum_down(a, 4 * SATI),
        Err(AccountShadowAllocsSumDownError::AccountShadowAllocsSumWouldGoBelowZero(_, _, _))
    ));
    ah.register_account(key(0xB)).unwrap();
    let mut ops = Vec::new();
    ah.apply_changes(&mut ops).unwrap();
    assert_eq!(ah.get_account_balance(a), Some(150));
    assert_eq!(ah.get_account_shadow_allocs_sum_in_sati_satoshis(a), Some(3 * SATI));
    assert!(ah.is_account_registered(key(0xB)));
    assert!(ops.iter().any(|op| matches!(op, CHDiskOp::RegisterAccount(k) if *k == key(0xB))));
}

#[test]
fn cch_contract_coin_holder_operations() {
    let (a, c) = (key(0xA), key(0xC));
    let mut ch = ContractCoinHolder::new(&vec![contract_tree(c, 100, 0, &[])]).unwrap();
    ch.shadow_alloc_account(c, a).unwrap();
    ch.shadow_up(c, a, 40).unwrap();
    assert_eq!(ch.get_contract_allocs_sum(c), Some(40));
    assert_eq!(ch.get_account_shadow_alloc_value_in_satoshis(c, a), Some(40));
    assert!(matches!(
        ch.contract_balance_down(c, 101),
        Err(ContractBalanceDownError::ContractBalanceWouldGoBelowZero(_, 100, 101))
    ));
    assert_eq!(ch.shadow_up_all(c, 10).unwrap(), 1);
    assert_eq!(ch.get_account_shadow_alloc_value_in_sati_satoshis(c, a), Some(50 * SATI));
    let mut ops = Vec::new();
    ch.apply_changes(&mut ops).unwrap();
    assert_eq!(ch.get_contract_num_allocs(c), Some(1));
    assert_eq!(ch.get_account_shadow_alloc_value_in_satoshis(c, a), Some(50));
    assert!(ops.iter().any(|op| matches!(op, CHDiskOp::PutShadowAlloc(cc, aa, v) if *cc == c && *aa == a && *v == 50 * SATI)));
}
