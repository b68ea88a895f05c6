use cube::coin_manager::coin_manager::CoinManager;
use cube::flame_manager::apply::{flame_key, flame_set_value, set_has_expired};
use cube::flame_manager::apply_spec::FMDiskOp;
use cube::flame_manager::errors::{
    FMConstructionError, FMRegisterAccountError, FMUpdateAccountFlameConfigError,
};
use cube::flame_manager::flame::Flame;
use cube::flame_manager::flame_config::FMAccountFlameConfig;
use cube::flame_manager::flame_manager::FlameManager;
use cube::flame_manager::flame_selection::return_flames_to_fund;
use cube::flame_manager::flame_set::FMAccountFlameSet;
use cube::flame_manager::flame_sorting::{bytes_lt, sort_account_flames};
use cube::flame_manager::flame_tier::FlameTier;

fn key(b: u8) -> [u8; 32] {
    [b; 32]
}

fn tier1_config(spk: Vec<u8>) -> FMAccountFlameConfig {
    FMAccountFlameConfig::new(Some((1, spk)), None, None, None, None, None, None, None)
}

fn tiers_1_2_3_config() -> FMAccountFlameConfig {
    FMAccountFlameConfig::new(
        Some((1, vec![0x01])),
        Some((1, vec![0x02])),
        Some((1, vec![0x03])),
        None,
        None,
        None,
        None,
        None,
    )
}

fn tiers(flames: &[Flame]) -> Vec<u64> {
    flames.iter().map(|f| f.satoshi_amount()).collect()
}

#[test]
fn fm_tier_amounts_and_codes() {
    assert_eq!(FlameTier::new(100), FlameTier::Tier1HundredSatoshis);
    assert_eq!(FlameTier::new(1000), FlameTier::Tier2ThousandSatoshis);
    assert_eq!(FlameTier::new(10000), FlameTier::Tier3ThousandSatoshis);
    assert_eq!(FlameTier::new(100000), FlameTier::Tier4TenThousandSatoshis);
    assert_eq!(FlameTier::new(1000000), FlameTier::Tier5HundredThousandSatoshis);
    assert_eq!(FlameTier::new(10000000), FlameTier::Tier6TenMillionSatoshis);
    assert_eq!(FlameTier::new(100000000), FlameTier::Tier7HundredMillionSatoshis);
    assert_eq!(FlameTier::new(12345), FlameTier::TierAnyAmount(12345));
    assert_eq!(FlameTier::Tier3ThousandSatoshis.satoshi_amount(), 10000);
    assert_eq!(FlameTier::TierAnyAmount(7).satoshi_amount(), 7);
    assert_eq!(FlameTier::Tier1HundredSatoshis.to_bytes(), vec![0x01]);
    assert_eq!(FlameTier::Tier7HundredMillionSatoshis.to_bytes(), vec![0x07]);
    let any = FlameTier::TierAnyAmount(0x0102);
    assert_eq!(any.to_bytes(), vec![0x08, 0x02, 0x01, 0, 0, 0, 0, 0, 0]);
    assert_eq!(FlameTier::from_bytes(&any.to_bytes()), Some(any));
    assert_eq!(FlameTier::from_bytes(&[0x05]), Some(FlameTier::Tier5HundredThousandSatoshis));
    assert_eq!(FlameTier::from_bytes(&[]), None);
    assert_eq!(FlameTier::from_bytes(&[0x09]), None);
    assert_eq!(FlameTier::from_bytes(&[0x08, 1, 2]), None);
}

#[test]
fn fm_flame_round_trip() {
    let f = Flame::new(FlameTier::Tier2ThousandSatoshis, vec![0xAA, 0xBB]);
    let b = f.to_bytes();
    assert_eq!(b, vec![1, 0x02, 2, 0, 0xAA, 0xBB]);
    let back = Flame::from_bytes(&b).unwrap();
    assert_eq!(back.flame_tier, FlameTier::Tier2ThousandSatoshis);
    assert_eq!(back.script_pubkey, vec![0xAA, 0xBB]);
    assert_eq!(back.satoshi_amount(), 1000);
    assert!(Flame::from_bytes(&[1, 0x02, 5, 0, 0xAA]).is_none());
    assert!(Flame::from_bytes(&[]).is_none());
    let any = Flame::new(FlameTier::TierAnyAmount(99), vec![]);
    let back = Flame::from_bytes(&any.to_bytes()).unwrap();
    assert_eq!(back.flame_tier, FlameTier::TierAnyAmount(99));
    assert!(back.script_pubkey.is_empty());
}

#[test]
fn fm_flame_set_round_trip() {
    let set = FMAccountFlameSet::new(vec![
        (Flame::new(FlameTier::Tier1HundredSatoshis, vec![1]), 7),
        (Flame::new(FlameTier::TierAnyAmount(5), vec![2, 3]), 9),
    ]);
    let bytes = set.to_bytes();
    assert_eq!(&bytes[0..4], &[2, 0, 0, 0]);
    let back = FMAccountFlameSet::from_bytes(&bytes).unwrap();
    assert_eq!(back.flames.len(), 2);
    assert_eq!(back.flames[0].0.flame_tier, FlameTier::Tier1HundredSatoshis);
    assert_eq!(back.flames[0].1, 7);
    assert_eq!(back.flames[1].0.flame_tier, FlameTier::TierAnyAmount(5));
    assert_eq!(back.flames[1].0.script_pubkey, vec![2, 3]);
    assert_eq!(back.flames[1].1, 9);
    assert!(FMAccountFlameSet::from_bytes(&[1, 0, 0]).is_none());
    assert!(FMAccountFlameSet::from_bytes(&[1, 0, 0, 0]).is_none());
    let empty = FMAccountFlameSet::new(vec![]);
    assert_eq!(empty.to_bytes(), vec![0, 0, 0, 0]);
}

#[test]
fn fm_config_round_trip_and_readiness() {
    let fresh = FMAccountFlameConfig::fresh_new();
    assert!(!fresh.is_ready());
    let bytes = fresh.to_db_value_bytes();
    assert_eq!(bytes, vec![0u8; 8]);
    assert!(!FMAccountFlameConfig::from_db_value_bytes(&bytes).unwrap().is_ready());
    let only_tier6 = FMAccountFlameConfig::new(None, None, None, None, None, Some((2, vec![9])), None, None);
    assert!(!only_tier6.is_ready());
    let cfg = FMAccountFlameConfig::new(
        Some((1, vec![0x51])),
        None,
        Some((2, vec![0x52, 0x53])),
        None,
        None,
        None,
        Some((3, vec![])),
        Some((4, vec![0x54])),
    );
    assert!(cfg.is_ready());
    let bytes = cfg.to_db_value_bytes();
    assert_eq!(&bytes[0..5], &[0x01, 1, 1, 0, 0x51]);
    let back = FMAccountFlameConfig::from_db_value_bytes(&bytes).unwrap();
    assert_eq!(back.to_db_value_bytes(), bytes);
    let t1 = back.tier_1_hundred_satoshis.as_ref().unwrap();
    assert_eq!(t1.version, 1);
    assert_eq!(t1.script_pubkey, vec![0x51]);
    assert!(back.tier_2_thousand_satoshis.is_none());
    assert_eq!(back.tier_3_ten_thousand_satoshis.as_ref().unwrap().script_pubkey, vec![0x52, 0x53]);
    assert_eq!(back.tier_7_hundred_million_satoshis.as_ref().unwrap().version, 3);
    assert_eq!(back.tier_any_amount.as_ref().unwrap().script_pubkey, vec![0x54]);
    assert!(FMAccountFlameConfig::from_db_value_bytes(&bytes[0..bytes.len() - 1]).is_none());
    assert!(FMAccountFlameConfig::from_db_value_bytes(&[0x02]).is_none());
}

#[test]
fn fm_flames_to_fund_greedy_with_round_up() {
    let cfg = tiers_1_2_3_config();
    // 12,350 = 10,000 + 2 * 1,000 + 3 * 100 + one more 100 for the remaining 50.
    let flames = return_flames_to_fund(&cfg, 12_350, 0).unwrap();
    assert_eq!(tiers(&flames), vec![10000, 1000, 1000, 100, 100, 100, 100]);
    assert_eq!(flames[0].script_pubkey, vec![0x03]);
    assert_eq!(flames[6].script_pubkey, vec![0x01]);
    // The gap is what the set lacks of the target.
    let flames = return_flames_to_fund(&cfg, 12_350, 12_000).unwrap();
    assert_eq!(tiers(&flames), vec![100, 100, 100, 100]);
    // No gap: nothing to fund.
    assert_eq!(return_flames_to_fund(&cfg, 500, 500).unwrap().len(), 0);
    // The set holds more than the target: no funding.
    assert!(return_flames_to_fund(&cfg, 500, 600).is_none());
    // A configuration that is not ready funds nothing.
    assert!(return_flames_to_fund(&FMAccountFlameConfig::fresh_new(), 500, 0).is_none());
}

#[test]
fn fm_flames_to_fund_any_amount_tier() {
    let cfg = FMAccountFlameConfig::new(Some((1, vec![1])), None, None, None, None, None, None, Some((1, vec![8])));
    let flames = return_flames_to_fund(&cfg, 777, 77).unwrap();
    assert_eq!(flames.len(), 1);
    assert_eq!(flames[0].flame_tier, FlameTier::TierAnyAmount(700));
    assert_eq!(flames[0].script_pubkey, vec![8]);
}

#[test]
fn fm_sorting_orders_by_value_then_bytes() {
    let flames = vec![
        Flame::new(FlameTier::Tier1HundredSatoshis, vec![2]),
        Flame::new(FlameTier::Tier3ThousandSatoshis, vec![1]),
        Flame::new(FlameTier::Tier1HundredSatoshis, vec![1]),
    ];
    let sorted = sort_account_flames(&flames);
    assert_eq!(tiers(&sorted), vec![10000, 100, 100]);
    assert_eq!(sorted[1].script_pubkey, vec![1]);
    assert_eq!(sorted[2].script_pubkey, vec![2]);
    assert!(bytes_lt(&[1, 2], &[1, 3]));
    assert!(bytes_lt(&[1], &[1, 0]));
    assert!(!bytes_lt(&[1, 0], &[1]));
    assert!(!bytes_lt(&[4], &[4]));
}

#[test]
fn fm_flame_keys_and_set_helpers() {
    assert_eq!(flame_key(0x0102, 3), [0x02, 0x01, 0, 0, 0, 0, 0, 0, 3, 0, 0, 0]);
    let set = vec![
        (10u64, vec![(0u32, Flame::new(FlameTier::Tier1HundredSatoshis, vec![]))]),
        (20u64, vec![(1u32, Flame::new(FlameTier::Tier2ThousandSatoshis, vec![]))]),
    ];
    assert_eq!(flame_set_value(&set), 1100);
    assert!(set_has_expired(&set, 10));
    assert!(!set_has_expired(&set, 9));
}

#[test]
fn fm_register_and_update_config() {
    let a = key(0xA);
    let mut fm = FlameManager::new(&vec![]).unwrap();
    assert!(!fm.is_account_registered(a));
    fm.register_account(a, Some(tier1_config(vec![0x51]))).unwrap();
    assert!(matches!(
        fm.register_account(a, None),
        Err(FMRegisterAccountError::AccountHasJustBeenEphemerallyRegistered(_))
    ));
    assert!(fm.get_account_flame_config(a).unwrap().is_ready());
    assert!(matches!(
        fm.epheremally_update_account_flame_config(a, FMAccountFlameConfig::fresh_new()),
        Err(FMUpdateAccountFlameConfigError::AccountIsNotRegistered(_))
    ));
    let cm = CoinManager::new(&vec![], &vec![]).unwrap();
    let mut ops = Vec::new();
    let projected = fm.apply_changes(&cm, 1, 0, &mut ops).unwrap();
    assert!(projected.is_empty());
    fm.flush_delta();
    assert!(fm.is_account_registered(a));
    assert_eq!(fm.get_account_flame_set(a).unwrap().len(), 0);
    assert!(matches!(
        fm.register_account(a, None),
        Err(FMRegisterAccountError::AccountIsAlreadyPermanentlyRegistered(_))
    ));
    let prev = fm.epheremally_update_account_flame_config(a, tiers_1_2_3_config()).unwrap();
    assert_eq!(prev.unwrap().tier_1_hundred_satoshis.unwrap().script_pubkey, vec![0x51]);
    assert!(matches!(
        fm.epheremally_update_account_flame_config(a, tiers_1_2_3_config()),
        Err(FMUpdateAccountFlameConfigError::AccountFlameConfigHasAlreadyEpheremallyUpdated(_))
    ));
    assert!(fm.get_account_flame_config(a).unwrap().tier_3_ten_thousand_satoshis.is_some());
    fm.rollback_last();
    assert!(fm.get_account_flame_config(a).unwrap().tier_3_ten_thousand_satoshis.is_none());
}

/// A coin manager in which account A holds `balance` and is listed as changed.
fn coin_manager_with_change(a: [u8; 32], balance: u64) -> CoinManager {
    let mut cm = CoinManager::new(&vec![], &vec![]).unwrap();
    cm.register_account(a, 0).unwrap();
    let mut ops = Vec::new();
    cm.apply_changes(&mut ops).unwrap();
    cm.flush_delta();
    cm.account_balance_up(a, balance).unwrap();
    let mut ops = Vec::new();
    cm.apply_changes(&mut ops).unwrap();
    cm
}

#[test]
fn fm_apply_funds_changed_accounts_and_reloads() {
    let a = key(0xA);
    let mut fm = FlameManager::new(&vec![]).unwrap();
    fm.register_account(a, Some(tier1_config(vec![0x51]))).unwrap();
    let cm = coin_manager_with_change(a, 250);
    let mut ops = Vec::new();
    let projected = fm.apply_changes(&cm, 10, 5, &mut ops).unwrap();
    fm.flush_delta();
    assert_eq!(projected.len(), 1);
    assert_eq!(projected[0].0, a);
    let idx: Vec<u32> = projected[0].1.iter().map(|(i, _)| *i).collect();
    assert_eq!(idx, vec![0, 1, 2]);
    assert!(projected[0].1.iter().all(|(_, f)| f.flame_tier == FlameTier::Tier1HundredSatoshis));
    let set = fm.get_account_flame_set(a).unwrap();
    assert_eq!(set.len(), 1);
    assert_eq!(set[0].0, 10);
    assert_eq!(flame_set_value(&set), 300);
    // The writes rebuild the same state.
    let mut entries = Vec::new();
    for op in ops.iter() {
        match op {
            FMDiskOp::PutFlameConfig(k, v) => {
                assert_eq!(*k, a);
                entries.push((vec![0u8], v.clone()));
            }
            FMDiskOp::PutFlame(k, fk, v) => {
                assert_eq!(*k, a);
                entries.push((fk.to_vec(), v.clone()));
            }
            FMDiskOp::RemoveFlame(_, _) => panic!("nothing to remove"),
        }
    }
    let reloaded = FlameManager::new(&vec![(a.to_vec(), entries)]).unwrap();
    let set2 = reloaded.get_account_flame_set(a).unwrap();
    assert_eq!(set2.len(), 1);
    assert_eq!(set2[0].0, 10);
    assert_eq!(set2[0].1.len(), 3);
    assert_eq!(set2[0].1[2].0, 2);
    assert_eq!(
        reloaded.get_account_flame_config(a).unwrap().to_db_value_bytes(),
        tier1_config(vec![0x51]).to_db_value_bytes()
    );
}

#[test]
fn fm_apply_prunes_expired_flames_and_refunds() {
    let a = key(0xA);
    let mut fm = FlameManager::new(&vec![]).unwrap();
    fm.register_account(a, Some(tier1_config(vec![0x51]))).unwrap();
    let mut cm = coin_manager_with_change(a, 250);
    let mut ops = Vec::new();
    fm.apply_changes(&cm, 10, 5, &mut ops).unwrap();
    fm.flush_delta();
    cm.flush_delta();
    // Nothing changed and nothing expired: no account is funded.
    let mut ops = Vec::new();
    assert!(fm.apply_changes(&cm, 11, 9, &mut ops).unwrap().is_empty());
    assert!(ops.is_empty());
    // The flames at height 10 expire: they are removed, and the account is funded anew.
    let mut ops = Vec::new();
    let projected = fm.apply_changes(&cm, 20, 10, &mut ops).unwrap();
    assert_eq!(projected.len(), 1);
    assert_eq!(projected[0].1.len(), 3);
    let removed = ops.iter().filter(|op| matches!(op, FMDiskOp::RemoveFlame(_, _))).count();
    assert_eq!(removed, 3);
    let set = fm.get_account_flame_set(a).unwrap();
    assert_eq!(set.len(), 1);
    assert_eq!(set[0].0, 20);
}

#[test]
fn fm_load_errors() {
    let a = key(0xA);
    assert!(matches!(
        FlameManager::new(&vec![(a.to_vec(), vec![(vec![0u8], vec![0x05])])]),
        Err(FMConstructionError::UnableToDeserializeAccountFlameConfigBytesFromTreeValue(_, _))
    ));
    assert!(matches!(
        FlameManager::new(&vec![(a.to_vec(), vec![(vec![1u8, 2u8], vec![])])]),
        Err(FMConstructionError::InvalidAccountDbKeyByte(_, _))
    ));
    assert!(matches!(
        FlameManager::new(&vec![(a.to_vec(), vec![(vec![0u8; 12], vec![0xFF])])]),
        Err(FMConstructionError::UnableToDeserializeAccountFlameSetBytesFromTreeValue(_, _))
    ));
    // A tree whose name is not an account key is skipped.
    let fm = FlameManager::new(&vec![(vec![1, 2], vec![(vec![7u8], vec![])])]).unwrap();
    assert!(!fm.is_account_registered(a));
    // Flames are grouped by height and ordered by index.
    let f0 = Flame::new(FlameTier::Tier1HundredSatoshis, vec![0]);
    let f1 = Flame::new(FlameTier::Tier2ThousandSatoshis, vec![1]);
    let fm = FlameManager::new(&vec![(
        a.to_vec(),
        vec![
            (flame_key(4, 1).to_vec(), f1.to_bytes()),
            (flame_key(4, 0).to_vec(), f0.to_bytes()),
        ],
    )])
    .unwrap();
    let set = fm.get_account_flame_set(a).unwrap();
    assert_eq!(set.len(), 1);
    assert_eq!(set[0].1[0].0, 0);
    assert_eq!(set[0].1[0].1.flame_tier, FlameTier::Tier1HundredSatoshis);
    assert_eq!(set[0].1[1].0, 1);
}

#[test]
fn fm_checked_apply_matches_apply() {
    // Funding a changed account stays in range, so the checked form applies the changes as the
    // plain form does.
    let a = key(0xA);
    let mut fm = FlameManager::new(&vec![]).unwrap();
    fm.register_account(a, Some(tier1_config(vec![0x51]))).unwrap();
    let cm = coin_manager_with_change(a, 250);
    assert!(fm.changes_in_range(&cm, 5));
    let mut ops = Vec::new();
    let projected = match fm.apply_changes_checked(&cm, 10, 5, &mut ops) {
        Some(Ok(p)) => p,
        _ => panic!("the changes stay in range"),
    };
    assert_eq!(projected.len(), 1);
    let idx: Vec<u32> = projected[0].1.iter().map(|(i, _)| *i).collect();
    assert_eq!(idx, vec![0, 1, 2]);
}
