use cube::coin_manager::apply_spec::CMDiskOp;
use cube::coin_manager::coin_manager::CoinManager;
use cube::coin_manager::errors::{
    CMAccountApplyChangesError, CMAccountBalanceDownError, CMAccountBalanceUpError, CMApplyChangesError, CMConstructionAccountError,
    CMConstructionContractError, CMConstructionError, CMContractBalanceDownError,
    CMContractShadowAllocAccountError, CMContractShadowDeallocAccountError,
    CMRegisterAccountError, CMRegisterContractError, CMShadowDownAllError, CMShadowDownError,
    CMShadowUpAllError, CMShadowUpError,
};
use cube::coin_manager::load::NamedTree;
use cube::coin_manager::shadow_space::deferred_in_range;

const SATI: u128 = 100_000_000;

fn key(b: u8) -> [u8; 32] {
    [b; 32]
}

fn account_tree(k: [u8; 32], balance: u64, sum: u128) -> NamedTree {
    (
        k.to_vec(),
        vec![
            (vec![0u8], balance.to_le_bytes().to_vec()),
            (vec![1u8], sum.to_le_bytes().to_vec()),
        ],
    )
}

fn contract_tree(c: [u8; 32], balance: u64, allocs_sum: u64, allocs: &[([u8; 32], u128)]) -> NamedTree {
    let mut entries = vec![
        (vec![0u8; 32], balance.to_le_bytes().to_vec()),
        (vec![1u8; 32], allocs_sum.to_le_bytes().to_vec()),
    ];
    for (a, v) in allocs {
        entries.push((a.to_vec(), v.to_le_bytes().to_vec()));
    }
    (c.to_vec(), entries)
}

/// A manager holding account A (balance 1000) and contract C (balance 500), both permanent.
fn manager_with_account_and_contract() -> CoinManager {
    let mut cm = CoinManager::new(&vec![], &vec![]).unwrap();
    cm.register_account(key(0xA), 1000).unwrap();
    cm.register_contract(key(0xC), 500).unwrap();
    let mut ops = Vec::new();
    cm.apply_changes(&mut ops).unwrap();
    cm.flush_delta();
    cm
}

#[test]
fn cm_empty_store_loads_empty_manager() {
    let cm = CoinManager::new(&vec![], &vec![]).unwrap();
    assert!(!cm.is_account_registered(key(1)));
    assert!(!cm.is_contract_registered(key(1)));
    assert_eq!(cm.get_account_balance(key(1)), None);
    assert_eq!(cm.get_contract_balance(key(1)), None);
}

#[test]
fn cm_loads_account_and_contract_trees() {
    let a = key(0xA);
    let c = key(0xC);
    let cm = CoinManager::new(
        &vec![account_tree(a, 1000, 7 * SATI)],
        &vec![contract_tree(c, 500, 100, &[(a, 100 * SATI)])],
    )
    .unwrap();
    assert_eq!(cm.get_account_balance(a), Some(1000));
    assert_eq!(cm.get_account_global_shadow_allocs_sum_in_satoshis_base(a), Some(7));
    assert_eq!(cm.get_contract_balance(c), Some(500));
    assert_eq!(cm.get_contract_shadow_allocs_sum_in_satoshis(c), Some(100));
    assert_eq!(cm.get_contract_num_shadow_allocs(c), Some(1));
    assert_eq!(cm.get_shadow_alloc_value_in_sati_satoshis(c, a), Some(100 * SATI));
    assert_eq!(cm.get_shadow_alloc_value_in_satoshis(c, a), Some(100));
    assert_eq!(cm.get_account_target_flame_value_in_satoshis(a), Some(1007));
}

#[test]
fn cm_tree_with_short_name_is_skipped() {
    let cm = CoinManager::new(&vec![(vec![1, 2, 3], vec![(vec![9u8], vec![])])], &vec![]).unwrap();
    assert!(!cm.is_account_registered(key(1)));
}

#[test]
fn cm_bad_account_key_bytes_is_refused() {
    let a = key(0xA);
    let r = CoinManager::new(&vec![(a.to_vec(), vec![(vec![0u8, 0u8], vec![0u8; 8])])], &vec![]);
    match r {
        Err(CMConstructionError::AccountConstructionError(
            CMConstructionAccountError::UnableToDeserializeKeyBytesFromTreeKey(k, i, v),
        )) => {
            assert_eq!(k, a);
            assert_eq!(i, 0);
            assert_eq!(v, vec![0u8, 0u8]);
        }
        other => panic!("unexpected: {:?}", other.err()),
    }
}

#[test]
fn cm_bad_account_balance_value_is_refused() {
    let a = key(0xA);
    let r = CoinManager::new(&vec![(a.to_vec(), vec![(vec![0u8], vec![0u8; 7])])], &vec![]);
    assert!(matches!(
        r,
        Err(CMConstructionError::AccountConstructionError(
            CMConstructionAccountError::UnableToDeserializeAccountBalanceFromTreeValue(_, 0, [0], _)
        ))
    ));
}

#[test]
fn cm_bad_account_sum_value_is_refused() {
    let a = key(0xA);
    let r = CoinManager::new(&vec![(a.to_vec(), vec![(vec![1u8], vec![0u8; 8])])], &vec![]);
    assert!(matches!(
        r,
        Err(CMConstructionError::AccountConstructionError(
            CMConstructionAccountError::UnableToDeserializeAccountShadowAllocsSumFromTreeValue(_, 0, [1], _)
        ))
    ));
}

#[test]
fn cm_unknown_account_tree_key_is_refused() {
    let a = key(0xA);
    let r = CoinManager::new(&vec![(a.to_vec(), vec![(vec![2u8], vec![0u8; 8])])], &vec![]);
    assert!(matches!(
        r,
        Err(CMConstructionError::AccountConstructionError(
            CMConstructionAccountError::InvalidTreeKeyEncountered(_, _)
        ))
    ));
}

#[test]
fn cm_contract_allocs_sum_above_balance_is_refused() {
    let c = key(0xC);
    let r = CoinManager::new(&vec![], &vec![contract_tree(c, 10, 11, &[])]);
    match r {
        Err(CMConstructionError::ContractConstructionError(
            CMConstructionContractError::AllocsSumExceedsTheContractBalance(cc, s, b),
        )) => {
            assert_eq!(cc, c);
            assert_eq!(s, 11);
            assert_eq!(b, 10);
        }
        other => panic!("unexpected: {:?}", other.err()),
    }
}

#[test]
fn cm_bad_contract_values_are_refused() {
    let c = key(0xC);
    let bad_key = CoinManager::new(&vec![], &vec![(c.to_vec(), vec![(vec![0u8; 3], vec![0u8; 8])])]);
    assert!(matches!(
        bad_key,
        Err(CMConstructionError::ContractConstructionError(
            CMConstructionContractError::UnableToDeserializeKeyBytesFromTreeKey(_, 0, _)
        ))
    ));
    let bad_balance = CoinManager::new(&vec![], &vec![(c.to_vec(), vec![(vec![0u8; 32], vec![0u8; 16])])]);
    assert!(matches!(
        bad_balance,
        Err(CMConstructionError::ContractConstructionError(
            CMConstructionContractError::UnableToDeserializeContractBalanceFromTreeValue(_, 0, _, _)
        ))
    ));
    let bad_sum = CoinManager::new(&vec![], &vec![(c.to_vec(), vec![(vec![1u8; 32], vec![0u8; 16])])]);
    assert!(matches!(
        bad_sum,
        Err(CMConstructionError::ContractConstructionError(
            CMConstructionContractError::UnableToDeserializeAllocsSumFromTreeValue(_, 0, _, _)
        ))
    ));
    let bad_alloc = CoinManager::new(&vec![], &vec![(c.to_vec(), vec![(vec![5u8; 32], vec![0u8; 8])])]);
    assert!(matches!(
        bad_alloc,
        Err(CMConstructionError::ContractConstructionError(
            CMConstructionContractError::UnableToDeserializeAllocValueFromTreeValue(_, 0, _, _)
        ))
    ));
}

#[test]
fn cm_register_errors() {
    let mut cm = CoinManager::new(&vec![], &vec![]).unwrap();
    assert!(matches!(
        cm.register_account([0u8; 32], 5),
        Err(CMRegisterAccountError::AccountKeyCannotBeTheSpecialDbKeys(_))
    ));
    assert!(matches!(
        cm.register_account([1u8; 32], 5),
        Err(CMRegisterAccountError::AccountKeyCannotBeTheSpecialDbKeys(_))
    ));
    cm.register_account(key(0xA), 5).unwrap();
    assert!(matches!(
        cm.register_account(key(0xA), 5),
        Err(CMRegisterAccountError::AccountHasJustBeenEphemerallyRegistered(_))
    ));
    cm.register_contract(key(0xC), 5).unwrap();
    assert!(matches!(
        cm.register_contract(key(0xC), 5),
        Err(CMRegisterContractError::ContractHasJustBeenEphemerallyRegistered(_))
    ));
    // A registration is not visible before the changes are applied.
    assert_eq!(cm.get_account_balance(key(0xA)), None);
    assert!(!cm.is_account_registered(key(0xA)));
}

#[test]
fn cm_apply_registers_and_writes() {
    let mut cm = CoinManager::new(&vec![], &vec![]).unwrap();
    cm.register_account(key(0xA), 1000).unwrap();
    cm.register_contract(key(0xC), 500).unwrap();
    let mut ops = Vec::new();
    cm.apply_changes(&mut ops).unwrap();
    assert!(cm.is_account_registered(key(0xA)));
    assert!(cm.is_contract_registered(key(0xC)));
    assert_eq!(cm.get_account_balance(key(0xA)), Some(1000));
    assert_eq!(cm.get_contract_balance(key(0xC)), Some(500));
    assert_eq!(cm.get_account_global_shadow_allocs_sum_in_satoshis_base(key(0xA)), Some(0));
    assert_eq!(ops.len(), 4);
    assert!(matches!(ops[0], CMDiskOp::PutAccountBalance(k, 1000) if k == key(0xA)));
    assert!(matches!(ops[1], CMDiskOp::PutAccountShadowAllocsSum(k, 0) if k == key(0xA)));
    assert!(matches!(ops[2], CMDiskOp::PutContractBalance(k, 500) if k == key(0xC)));
    assert!(matches!(ops[3], CMDiskOp::PutContractAllocsSum(k, 0) if k == key(0xC)));
    cm.flush_delta();
    assert!(matches!(
        cm.register_account(key(0xA), 1),
        Err(CMRegisterAccountError::AccountIsAlreadyPermanentlyRegistered(_))
    ));
    assert!(matches!(
        cm.register_contract(key(0xC), 1),
        Err(CMRegisterContractError::ContractIsAlreadyPermanentlyRegistered(_))
    ));
}

#[test]
fn cm_balance_up_then_down_restores_balance() {
    let mut cm = manager_with_account_and_contract();
    cm.account_balance_up(key(0xA), 250).unwrap();
    assert_eq!(cm.get_account_balance(key(0xA)), Some(1250));
    cm.account_balance_down(key(0xA), 250).unwrap();
    assert_eq!(cm.get_account_balance(key(0xA)), Some(1000));
    cm.contract_balance_up(key(0xC), 7).unwrap();
    cm.contract_balance_down(key(0xC), 7).unwrap();
    assert_eq!(cm.get_contract_balance(key(0xC)), Some(500));
}

#[test]
fn cm_balance_errors() {
    let mut cm = manager_with_account_and_contract();
    assert!(matches!(
        cm.account_balance_up(key(0xB), 1),
        Err(CMAccountBalanceUpError::UnableToGetAccountBalance(_))
    ));
    match cm.account_balance_down(key(0xA), 1001) {
        Err(CMAccountBalanceDownError::AccountBalanceWouldGoBelowZero(k, have, want)) => {
            assert_eq!(k, key(0xA));
            assert_eq!(have, 1000);
            assert_eq!(want, 1001);
        }
        other => panic!("unexpected: {:?}", other),
    }
    assert!(matches!(
        cm.contract_balance_down(key(0xC), 501),
        Err(CMContractBalanceDownError::ContractBalanceWouldGoBelowZero(_, 500, 501))
    ));
    assert_eq!(cm.get_account_balance(key(0xA)), Some(1000));
}

#[test]
fn cm_shadow_allocation_flow() {
    let a = key(0xA);
    let c = key(0xC);
    let mut cm = manager_with_account_and_contract();
    cm.contract_shadow_alloc_account(c, a).unwrap();
    assert!(matches!(
        cm.contract_shadow_alloc_account(c, a),
        Err(CMContractShadowAllocAccountError::AccountHasJustBeenEphemerallyAllocated(_, _))
    ));
    assert_eq!(cm.get_shadow_alloc_value_in_sati_satoshis(c, a), Some(0));
    cm.shadow_up(c, a, 100).unwrap();
    assert_eq!(cm.get_shadow_alloc_value_in_satoshis(c, a), Some(100));
    assert_eq!(cm.get_shadow_alloc_value_in_sati_satoshis(c, a), Some(100 * SATI));
    assert_eq!(cm.get_contract_shadow_allocs_sum_in_satoshis(c), Some(100));
    assert_eq!(cm.get_account_global_shadow_allocs_sum_in_satoshis_base(a), Some(100));
    match cm.shadow_up(c, a, 1000) {
        Err(CMShadowUpError::AllocsSumExceedsTheContractBalance(cc, sum, bal)) => {
            assert_eq!(cc, c);
            assert_eq!(sum, 1100);
            assert_eq!(bal, 500);
        }
        other => panic!("unexpected: {:?}", other),
    }
    assert!(matches!(
        cm.shadow_down(c, a, 200),
        Err(CMShadowDownError::AccountShadowAllocValueWouldGoBelowZero(_, _, _, _))
    ));
    match cm.contract_balance_down(c, 450) {
        Err(CMContractBalanceDownError::ContractBalanceWouldGoBelowAllocsSum(_, new_balance, sum)) => {
            assert_eq!(new_balance, 50);
            assert_eq!(sum, 100);
        }
        other => panic!("unexpected: {:?}", other),
    }
    // Proportional increase: the only allocation takes all of it.
    assert_eq!(cm.shadow_up_all(c, 100).unwrap(), 1);
    assert_eq!(cm.get_contract_shadow_allocs_sum_in_satoshis(c), Some(200));
    assert_eq!(cm.get_shadow_alloc_value_in_satoshis(c, a), Some(200));
    assert_eq!(cm.get_account_global_shadow_allocs_sum_in_satoshis(a), Some(200));
    let mut ops = Vec::new();
    cm.apply_changes(&mut ops).unwrap();
    cm.flush_delta();
    assert_eq!(cm.get_shadow_alloc_value_in_satoshis(c, a), Some(200));
    assert_eq!(cm.get_account_global_shadow_allocs_sum_in_satoshis_base(a), Some(200));
    assert_eq!(cm.get_account_target_flame_value_in_satoshis(a), Some(1200));
    assert!(matches!(
        cm.contract_shadow_alloc_account(c, a),
        Err(CMContractShadowAllocAccountError::AccountIsAlreadyPermanentlyAllocated(_, _))
    ));
}

#[test]
fn cm_shadow_up_all_splits_proportionally() {
    let a = key(0xA);
    let b = key(0xB);
    let c = key(0xC);
    let mut cm = CoinManager::new(
        &vec![account_tree(a, 0, 30 * SATI), account_tree(b, 0, 10 * SATI)],
        &vec![contract_tree(c, 1000, 40, &[(a, 30 * SATI), (b, 10 * SATI)])],
    )
    .unwrap();
    assert_eq!(cm.shadow_up_all(c, 20).unwrap(), 2);
    assert_eq!(cm.get_shadow_alloc_value_in_satoshis(c, a), Some(45));
    assert_eq!(cm.get_shadow_alloc_value_in_satoshis(c, b), Some(15));
    let mut ops = Vec::new();
    cm.apply_changes(&mut ops).unwrap();
    cm.flush_delta();
    assert_eq!(cm.get_shadow_alloc_value_in_satoshis(c, a), Some(45));
    assert_eq!(cm.get_shadow_alloc_value_in_satoshis(c, b), Some(15));
    assert_eq!(cm.get_account_global_shadow_allocs_sum_in_satoshis_base(a), Some(45));
    assert_eq!(cm.get_account_global_shadow_allocs_sum_in_satoshis_base(b), Some(15));
    assert_eq!(cm.get_contract_shadow_allocs_sum_in_satoshis(c), Some(60));
    // Proportional decrease.
    assert_eq!(cm.shadow_down_all(c, 30).unwrap(), 2);
    assert_eq!(cm.get_contract_shadow_allocs_sum_in_satoshis(c), Some(30));
    assert_eq!(cm.get_shadow_alloc_value_in_sati_satoshis(c, a), Some(45 * SATI - (45 * SATI * 30 * SATI) / (60 * SATI)));
}

#[test]
fn cm_shadow_all_errors() {
    let a = key(0xA);
    let c = key(0xC);
    let mut cm = manager_with_account_and_contract();
    assert!(matches!(
        cm.shadow_up_all(c, 1),
        Err(CMShadowUpAllError::OperationNotPossibleWithZeroAllocsSum(_))
    ));
    assert!(matches!(
        cm.shadow_down_all(c, 1),
        Err(CMShadowDownAllError::OperationNotPossibleWithZeroAllocsSum(_))
    ));
    assert!(matches!(
        cm.shadow_up_all(key(0xD), 1),
        Err(CMShadowUpAllError::UnableToGetContractBalance(_))
    ));
    cm.contract_shadow_alloc_account(c, a).unwrap();
    cm.shadow_up(c, a, 10).unwrap();
    assert!(matches!(
        cm.shadow_down_all(c, 11),
        Err(CMShadowDownAllError::AllocsSumWouldGoBelowZero(_, 10, 11))
    ));
    assert!(matches!(
        cm.shadow_up_all(c, 491),
        Err(CMShadowUpAllError::AllocsSumExceedsTheContractBalance(_, 501, 500))
    ));
}

#[test]
fn cm_dealloc_requires_zero_value() {
    let a = key(0xA);
    let c = key(0xC);
    let mut cm = manager_with_account_and_contract();
    cm.contract_shadow_alloc_account(c, a).unwrap();
    assert!(matches!(
        cm.contract_shadow_dealloc_account(c, a),
        Err(CMContractShadowDeallocAccountError::AccountHasJustBeenEphemerallyAllocated(_, _))
    ));
    cm.shadow_up(c, a, 5).unwrap();
    let mut ops = Vec::new();
    cm.apply_changes(&mut ops).unwrap();
    cm.flush_delta();
    assert!(matches!(
        cm.contract_shadow_dealloc_account(c, a),
        Err(CMContractShadowDeallocAccountError::AllocValueIsNonZero(_, _))
    ));
    cm.shadow_down(c, a, 5).unwrap();
    cm.contract_shadow_dealloc_account(c, a).unwrap();
    assert_eq!(cm.get_shadow_alloc_value_in_sati_satoshis(c, a), None);
    assert!(matches!(
        cm.contract_shadow_dealloc_account(c, a),
        Err(CMContractShadowDeallocAccountError::AccountHasJustBeenEphemerallyDeallocated(_, _))
    ));
    assert!(matches!(
        cm.contract_shadow_alloc_account(c, a),
        Err(CMContractShadowAllocAccountError::AccountHasJustBeenEphemerallyDeallocated(_, _))
    ));
    assert!(matches!(
        cm.contract_shadow_dealloc_account(c, key(0xB)),
        Err(CMContractShadowDeallocAccountError::UnableToGetAccountAllocValue(_, _))
    ));
}

#[test]
fn cm_apply_saves_dealloc() {
    // A deallocation is saved by applying: the allocation is gone from memory and its stored entry
    // is deleted.
    let a = key(0xA);
    let c = key(0xC);
    let mut cm = manager_with_account_and_contract();
    cm.contract_shadow_alloc_account(c, a).unwrap();
    let mut ops = Vec::new();
    cm.apply_changes(&mut ops).unwrap();
    cm.flush_delta();
    assert_eq!(cm.get_contract_num_shadow_allocs(c), Some(1));
    cm.contract_shadow_dealloc_account(c, a).unwrap();
    let mut ops = Vec::new();
    cm.apply_changes(&mut ops).unwrap();
    cm.flush_delta();
    assert_eq!(cm.get_contract_num_shadow_allocs(c), Some(0));
    assert_eq!(cm.get_shadow_alloc_value_in_sati_satoshis(c, a), None);
    assert!(ops.iter().any(|op| matches!(op, CMDiskOp::RemoveShadowAlloc(cc, aa) if *cc == c && *aa == a)));
}

#[test]
fn cm_rollback_restores_last_execution() {
    let a = key(0xA);
    let mut cm = manager_with_account_and_contract();
    cm.pre_execution();
    cm.account_balance_up(a, 1).unwrap();
    cm.pre_execution();
    cm.account_balance_up(a, 10).unwrap();
    assert_eq!(cm.get_account_balance(a), Some(1011));
    cm.rollback_last();
    assert_eq!(cm.get_account_balance(a), Some(1001));
    assert_eq!(cm.get_coingap_accounts_list(), vec![a]);
}

#[test]
fn cm_shadow_up_of_unallocated_account_fails() {
    let mut cm = manager_with_account_and_contract();
    assert!(matches!(
        cm.shadow_up(key(0xC), key(0xA), 1),
        Err(CMShadowUpError::UnableToGetAccountShadowAllocValue(_, _))
    ));
    assert!(matches!(
        cm.shadow_down(key(0xC), key(0xA), 1),
        Err(CMShadowDownError::UnableToGetAccountShadowAllocValue(_, _))
    ));
}

#[test]
fn cm_checked_apply_spreads_deferred_changes() {
    // A deferred proportional increase that stays in range is applied by the checked form.
    let a = key(0xA);
    let c = key(0xC);
    let mut cm = manager_with_account_and_contract();
    cm.contract_shadow_alloc_account(c, a).unwrap();
    cm.shadow_up(c, a, 100).unwrap();
    let mut ops = Vec::new();
    cm.apply_changes(&mut ops).unwrap();
    cm.flush_delta();
    assert_eq!(cm.shadow_up_all(c, 50).unwrap(), 1);
    let read_before = cm.get_shadow_alloc_value_in_sati_satoshis(c, a);
    let global_before = cm.get_account_global_shadow_allocs_sum_in_sati_satoshis(a);
    let mut ops = Vec::new();
    assert!(matches!(cm.apply_changes_checked(&mut ops), Some(Ok(()))));
    cm.flush_delta();
    assert_eq!(cm.get_shadow_alloc_value_in_satoshis(c, a), Some(150));
    assert_eq!(cm.get_account_global_shadow_allocs_sum_in_satoshis_base(a), Some(150));
    assert_eq!(cm.get_shadow_alloc_value_in_sati_satoshis(c, a), read_before);
    assert_eq!(cm.get_account_body(a).map(|b| b.global_shadow_allocs_sum), global_before);
}

#[test]
fn cm_deferred_change_range_check() {
    // No deferred change always applies; a share that would overflow 128 bits does not.
    assert!(deferred_in_range(100, 0, 0));
    assert!(deferred_in_range(100 * SATI, 50, 150));
    assert!(!deferred_in_range(u128::MAX, 10, 20));
}

#[test]
fn cm_apply_fails_on_unregistered_account_reached_by_spread() {
    // An allocation may be made for an account that is not registered; a shadow up on it fails at
    // the global sum but keeps the raised allocation, and a later proportional increase then reaches
    // an unregistered account when the changes are applied.
    let b = key(0xB);
    let c = key(0xC);
    let mut cm = manager_with_account_and_contract();
    cm.contract_shadow_alloc_account(c, b).unwrap();
    assert!(matches!(cm.shadow_up(c, b, 100), Err(CMShadowUpError::AccountShadowAllocsSumUpError(_, _, _))));
    assert_eq!(cm.get_shadow_alloc_value_in_satoshis(c, b), Some(100));
    assert_eq!(cm.shadow_up_all(c, 50).unwrap(), 1);
    let mut ops = Vec::new();
    match cm.apply_changes(&mut ops) {
        Err(CMApplyChangesError::AccountApplyChangesError(
            CMAccountApplyChangesError::UnableToGetPermanentAccountBody(k),
        )) => assert_eq!(k, b),
        other => panic!("unexpected: {:?}", other),
    }
}
