use cube::archival::sorted_batch_heights;
use cube::graveyard::errors::{
    GraveyardBuryAccountError, GraveyardConstructionError, GraveyardRedeemAccountCoinsError,
};
use cube::graveyard::graveyard::{Graveyard, GraveyardDiskOp, MIN_REDEMPTION_AMOUNT};
use cube::params_manager::params_holder::ParamsHolder;
use cube::params_manager::params_manager::{ParamsManager, PARAMS_CATEGORY_CASUAL};

fn key(b: u8) -> [u8; 32] {
    [b; 32]
}

fn entries_of(ops: &[GraveyardDiskOp]) -> Vec<(Vec<u8>, Vec<u8>)> {
    ops.iter()
        .map(|op| match op {
            GraveyardDiskOp::PutRedemptionAmount(k, v) => (k.to_vec(), v.clone()),
        })
        .collect()
}

#[test]
fn gy_bury_then_read() {
    let a = key(0xA);
    let mut g = Graveyard::new(&vec![]).unwrap();
    assert!(!g.is_account_buried(a));
    assert_eq!(g.get_redemption_amount(a), None);
    g.bury_account(a, 700).unwrap();
    assert!(g.is_account_buried(a));
    assert_eq!(g.get_redemption_amount(a), Some(700));
    assert!(matches!(
        g.bury_account(a, 1),
        Err(GraveyardBuryAccountError::AccountHasJustBeenEpheremallyBuried(_))
    ));
    assert!(matches!(
        g.redeem_account_coins(a),
        Err(GraveyardRedeemAccountCoinsError::ThisAccountHasJustBeenEphemerallyBurried(_))
    ));
    let mut ops = Vec::new();
    g.apply_changes(&mut ops);
    assert_eq!(entries_of(&ops), vec![(a.to_vec(), 700u64.to_le_bytes().to_vec())]);
    assert!(matches!(
        g.bury_account(a, 1),
        Err(GraveyardBuryAccountError::AccountIsAlreadyPermanentlyBuried(_))
    ));
    assert_eq!(g.buried_accounts(), vec![(a, 700)]);
}

#[test]
fn gy_redeem_then_read_and_persist() {
    let a = key(0xA);
    let mut g = Graveyard::new(&vec![(a.to_vec(), 900u64.to_le_bytes().to_vec())]).unwrap();
    assert_eq!(g.redeem_account_coins(a).unwrap(), 900);
    assert_eq!(g.get_redemption_amount(a), Some(0));
    assert!(matches!(
        g.redeem_account_coins(a),
        Err(GraveyardRedeemAccountCoinsError::AccountCoinsHasJustBeenEphemerallyRedeemed(_))
    ));
    let mut ops = Vec::new();
    g.apply_changes(&mut ops);
    assert_eq!(g.get_redemption_amount(a), Some(0));
    // The writes rebuild the same graveyard.
    let reloaded = Graveyard::new(&entries_of(&ops)).unwrap();
    assert_eq!(reloaded.get_redemption_amount(a), Some(0));
    // Nothing is left to redeem.
    assert!(matches!(
        g.redeem_account_coins(a),
        Err(GraveyardRedeemAccountCoinsError::RedemptionAmountIsLessThanTheMinimumRedemptionAmount(_, 0, 500))
    ));
}

#[test]
fn gy_redeem_errors() {
    let a = key(0xA);
    let mut g = Graveyard::new(&vec![(a.to_vec(), (MIN_REDEMPTION_AMOUNT - 1).to_le_bytes().to_vec())]).unwrap();
    match g.redeem_account_coins(a) {
        Err(GraveyardRedeemAccountCoinsError::RedemptionAmountIsLessThanTheMinimumRedemptionAmount(k, v, m)) => {
            assert_eq!(k, a);
            assert_eq!(v, 499);
            assert_eq!(m, 500);
        }
        other => panic!("unexpected: {:?}", other),
    }
    assert!(matches!(
        g.redeem_account_coins(key(0xB)),
        Err(GraveyardRedeemAccountCoinsError::RedemptionAmountNotFound(_))
    ));
}

#[test]
fn gy_rollback_restores_last_execution() {
    let (a, b) = (key(0xA), key(0xB));
    let mut g = Graveyard::new(&vec![]).unwrap();
    g.pre_execution();
    g.bury_account(a, 1).unwrap();
    g.pre_execution();
    g.bury_account(b, 2).unwrap();
    g.rollback_last();
    assert!(g.is_account_buried(a));
    assert!(!g.is_account_buried(b));
    g.flush_deltas();
    assert!(!g.is_account_buried(a));
}

#[test]
fn gy_load_errors() {
    let r = Graveyard::new(&vec![(vec![1, 2], 5u64.to_le_bytes().to_vec())]);
    match r {
        Err(GraveyardConstructionError::UnableToDeserializeAccountKeyBytesFromDBKey(k)) => assert_eq!(k, vec![1, 2]),
        other => panic!("unexpected: {:?}", other.err()),
    }
    let r = Graveyard::new(&vec![(key(1).to_vec(), vec![1, 2, 3])]);
    assert!(matches!(
        r,
        Err(GraveyardConstructionError::UnableToDeserializeRedemptionAmountBytesFromDBValue(_, _))
    ));
}

#[test]
fn pm_defaults_and_round_trip() {
    let pm = ParamsManager::new(&vec![]);
    let d = ParamsHolder::fresh_new();
    assert_eq!(pm.get_params_holder(), d);
    assert!(d.account_can_initially_deploy_liquidity);
    assert_eq!(d.call_entry_ppm_calldata_bytesize_fee, 1_000_000);
    assert_eq!(d.liftup_entry_per_lift_base_fee, 50);
    let mut pm = pm;
    pm.set_account_can_initially_deploy_liquidity(false);
    pm.set_move_entry_base_fee(77);
    pm.set_in_call_ppm_liquidity_fee(5);
    // The permanent params are unchanged until the changes are applied.
    assert_eq!(pm.get_params_holder(), d);
    let pending = pm.pending_writes();
    assert_eq!(pm.get_params_holder(), d);
    let mut ops = Vec::new();
    pm.apply_changes(&mut ops);
    assert_eq!(pending, ops);
    pm.flush_delta();
    let h = pm.get_params_holder();
    assert!(!h.account_can_initially_deploy_liquidity);
    assert_eq!(h.move_entry_base_fee, 77);
    assert_eq!(h.in_call_ppm_liquidity_fee, 5);
    assert_eq!(h.call_entry_base_fee, 10);
    assert_eq!(ops.len(), 9);
    assert!(pm.pending_writes().is_empty());
    assert_eq!(ops[0], ([PARAMS_CATEGORY_CASUAL, 0], vec![0u8]));
    assert_eq!(ops[2], ([PARAMS_CATEGORY_CASUAL, 2], 77u64.to_le_bytes().to_vec()));
    // The writes rebuild the same params.
    let entries: Vec<(Vec<u8>, Vec<u8>)> = ops.iter().map(|(k, v)| (k.to_vec(), v.clone())).collect();
    assert_eq!(ParamsManager::new(&entries).get_params_holder(), h);
}

#[test]
fn pm_unknown_entries_are_skipped() {
    let pm = ParamsManager::new(&vec![
        (vec![PARAMS_CATEGORY_CASUAL, 99], 5u64.to_le_bytes().to_vec()),
        (vec![0x07, 2], 5u64.to_le_bytes().to_vec()),
        (vec![PARAMS_CATEGORY_CASUAL, 3], vec![1, 2]),
        (vec![PARAMS_CATEGORY_CASUAL, 4], 8u64.to_le_bytes().to_vec()),
        (vec![PARAMS_CATEGORY_CASUAL, 1], vec![0]),
    ]);
    let h = pm.get_params_holder();
    assert_eq!(h.call_entry_base_fee, 10);
    assert_eq!(h.move_entry_base_fee, 10);
    assert_eq!(h.call_entry_ppm_calldata_bytesize_fee, 8);
    assert!(!h.account_can_initially_deploy_contract);
}

#[test]
fn pm_rollback_and_no_change_apply() {
    let mut pm = ParamsManager::new(&vec![]);
    let mut ops = Vec::new();
    pm.apply_changes(&mut ops);
    assert!(ops.is_empty());
    pm.pre_execution();
    pm.set_liftup_entry_base_fee(1);
    pm.pre_execution();
    pm.set_liftup_entry_base_fee(2);
    pm.rollback_last();
    pm.apply_changes(&mut ops);
    assert_eq!(pm.get_params_holder().liftup_entry_base_fee, 1);
    pm.set_call_entry_base_fee(3);
    pm.set_call_entry_ppm_calldata_bytesize_fee(4);
    pm.set_liftup_entry_per_lift_base_fee(6);
    pm.set_move_ppm_liquidity_fee(7);
    pm.set_account_can_initially_deploy_contract(false);
    pm.apply_changes(&mut ops);
    let h = pm.get_params_holder();
    assert_eq!(
        (h.call_entry_base_fee, h.call_entry_ppm_calldata_bytesize_fee, h.liftup_entry_per_lift_base_fee, h.move_ppm_liquidity_fee),
        (3, 4, 6, 7)
    );
    assert!(!h.account_can_initially_deploy_contract);
}

#[test]
fn archival_heights_come_out_ascending() {
    assert_eq!(sorted_batch_heights(&vec![5, 1, 9, 3]), vec![1, 3, 5, 9]);
    assert_eq!(sorted_batch_heights(&vec![]), Vec::<u64>::new());
    assert_eq!(sorted_batch_heights(&vec![2, 2, 1]), vec![1, 2, 2]);
}

#[test]
fn gy_partial_writes_keep_the_changes() {
    // The pending writes come redemptions first; applying only the first keeps the burial pending.
    let a = key(0xA);
    let b = key(0xB);
    let mut g = Graveyard::new(&vec![(a.to_vec(), 900u64.to_le_bytes().to_vec())]).unwrap();
    assert_eq!(g.redeem_account_coins(a).unwrap(), 900);
    g.bury_account(b, 700).unwrap();
    let ops = g.pending_writes();
    assert_eq!(ops.len(), 2);
    let GraveyardDiskOp::PutRedemptionAmount(k0, v0) = &ops[0];
    assert_eq!((*k0, v0.clone()), (a, 0u64.to_le_bytes().to_vec()));
    g.apply_writes(&ops, 1);
    assert_eq!(g.buried_accounts(), vec![(a, 0)]);
    // The burial is still ephemeral.
    assert!(g.is_account_buried(b));
    g.apply_writes(&ops, ops.len());
    g.flush_deltas();
    assert_eq!(g.buried_accounts(), vec![(a, 0), (b, 700)]);
}
