use std::collections::BTreeMap;

use cube::coin_holder::apply::CHDiskOp;
use cube::coin_holder::coin_holder::CoinHolder;
use cube::coin_manager::apply_spec::CMDiskOp;
use cube::coin_manager::coin_manager::CoinManager;
use cube::coin_manager::load::NamedTree;
use cube::flame_manager::apply::flame_key;
use cube::flame_manager::apply_spec::FMDiskOp;
use cube::flame_manager::flame::Flame;
use cube::flame_manager::flame_config::FMAccountFlameConfig;
use cube::flame_manager::flame_manager::FlameManager;
use cube::flame_manager::flame_tier::FlameTier;
use cube::graveyard::graveyard::{Graveyard, GraveyardDiskOp};

const SATI: u128 = 100_000_000;

fn key(b: u8) -> [u8; 32] {
    [b; 32]
}

/// A store of named trees, each with its entries in key order.
type Store = BTreeMap<Vec<u8>, BTreeMap<Vec<u8>, Vec<u8>>>;

fn put(store: &mut Store, tree: &[u8], k: Vec<u8>, v: Vec<u8>) {
    store.entry(tree.to_vec()).or_default().insert(k, v);
}

fn remove(store: &mut Store, tree: &[u8], k: &[u8]) {
    store.entry(tree.to_vec()).or_default().remove(k);
}

fn trees(store: &Store) -> Vec<NamedTree> {
    store
        .iter()
        .map(|(name, entries)| (name.clone(), entries.iter().map(|(k, v)| (k.clone(), v.clone())).collect()))
        .collect()
}

fn write_cm(accounts: &mut Store, contracts: &mut Store, ops: &[CMDiskOp]) {
    for op in ops {
        match op {
            CMDiskOp::PutAccountBalance(k, v) => put(accounts, k, vec![0], v.to_le_bytes().to_vec()),
            CMDiskOp::PutAccountShadowAllocsSum(k, s) => put(accounts, k, vec![1], s.to_le_bytes().to_vec()),
            CMDiskOp::PutContractBalance(c, v) => put(contracts, c, vec![0; 32], v.to_le_bytes().to_vec()),
            CMDiskOp::PutContractAllocsSum(c, v) => put(contracts, c, vec![1; 32], v.to_le_bytes().to_vec()),
            CMDiskOp::PutShadowAlloc(c, a, v) => put(contracts, c, a.to_vec(), v.to_le_bytes().to_vec()),
            CMDiskOp::RemoveShadowAlloc(c, a) => remove(contracts, c, a),
        }
    }
}

fn write_ch(accounts: &mut Store, contracts: &mut Store, ops: &[CHDiskOp]) {
    for op in ops {
        match op {
            // A registration goes to the root of the account store, which holds no tree.
            CHDiskOp::RegisterAccount(_) => {}
            CHDiskOp::PutAccountBalance(k, v) => put(accounts, k, vec![0], v.to_le_bytes().to_vec()),
            CHDiskOp::PutAccountShadowAllocsSum(k, s) => put(accounts, k, vec![1], s.to_le_bytes().to_vec()),
            CHDiskOp::PutContractBalance(c, v) => put(contracts, c, vec![0; 32], v.to_le_bytes().to_vec()),
            CHDiskOp::PutContractAllocsSum(c, v) => put(contracts, c, vec![1; 32], v.to_le_bytes().to_vec()),
            CHDiskOp::PutShadowAlloc(c, a, v) => put(contracts, c, a.to_vec(), v.to_le_bytes().to_vec()),
            CHDiskOp::RemoveShadowAlloc(c, a) => remove(contracts, c, a),
        }
    }
}

#[test]
fn cm_writes_rebuild_the_applied_state() {
    let (a, b, c, n) = (key(0xA), key(0xB), key(0xC), key(0xD));
    let mut accounts: Store = BTreeMap::new();
    let mut contracts: Store = BTreeMap::new();
    put(&mut accounts, &a, vec![0], 1000u64.to_le_bytes().to_vec());
    put(&mut accounts, &a, vec![1], 0u128.to_le_bytes().to_vec());
    put(&mut accounts, &b, vec![0], 50u64.to_le_bytes().to_vec());
    put(&mut accounts, &b, vec![1], 0u128.to_le_bytes().to_vec());
    put(&mut contracts, &c, vec![0; 32], 500u64.to_le_bytes().to_vec());
    put(&mut contracts, &c, vec![1; 32], 0u64.to_le_bytes().to_vec());
    let mut cm = CoinManager::new(&trees(&accounts), &trees(&contracts)).unwrap();
    cm.register_account(n, 7).unwrap();
    cm.account_balance_up(a, 5).unwrap();
    cm.contract_shadow_alloc_account(c, a).unwrap();
    cm.contract_shadow_alloc_account(c, b).unwrap();
    cm.shadow_up(c, a, 30).unwrap();
    cm.shadow_up(c, b, 10).unwrap();
    cm.shadow_up_all(c, 20).unwrap();
    let mut ops = Vec::new();
    cm.apply_changes(&mut ops).unwrap();
    cm.flush_delta();
    write_cm(&mut accounts, &mut contracts, &ops);
    let reloaded = CoinManager::new(&trees(&accounts), &trees(&contracts)).unwrap();
    for k in [a, b, n] {
        assert_eq!(reloaded.get_account_body(k).map(|x| (x.balance, x.global_shadow_allocs_sum)),
                   cm.get_account_body(k).map(|x| (x.balance, x.global_shadow_allocs_sum)));
    }
    assert_eq!(reloaded.get_account_balance(a), Some(1005));
    assert_eq!(reloaded.get_account_global_shadow_allocs_sum_in_satoshis_base(a), Some(45));
    assert_eq!(reloaded.get_contract_balance(c), cm.get_contract_balance(c));
    assert_eq!(reloaded.get_contract_shadow_allocs_sum_in_satoshis(c), Some(60));
    assert_eq!(reloaded.get_shadow_alloc_value_in_sati_satoshis(c, a), Some(45 * SATI));
    assert_eq!(reloaded.get_shadow_alloc_value_in_sati_satoshis(c, b), Some(15 * SATI));
}

#[test]
fn ch_writes_rebuild_the_applied_state() {
    let (a, b, c, n) = (key(0xA), key(0xB), key(0xC), key(0xD));
    let mut accounts: Store = BTreeMap::new();
    let mut contracts: Store = BTreeMap::new();
    put(&mut accounts, &a, vec![0], 1000u64.to_le_bytes().to_vec());
    put(&mut accounts, &b, vec![0], 1000u64.to_le_bytes().to_vec());
    put(&mut contracts, &c, vec![0; 32], 500u64.to_le_bytes().to_vec());
    let mut h = CoinHolder::new(&trees(&accounts), &trees(&contracts)).unwrap();
    h.register_account(n).unwrap();
    let mut ops = Vec::new();
    h.apply_changes(&mut ops).unwrap();
    h.flush_delta();
    h.account_balance_up(n, 3).unwrap();
    h.shadow_alloc_account(c, a).unwrap();
    h.shadow_alloc_account(c, b).unwrap();
    h.shadow_up(c, a, 30).unwrap();
    h.shadow_up(c, b, 10).unwrap();
    h.shadow_down_all(c, 20).unwrap();
    ops.clear();
    h.apply_changes(&mut ops).unwrap();
    h.flush_delta();
    write_ch(&mut accounts, &mut contracts, &ops);
    let reloaded = CoinHolder::new(&trees(&accounts), &trees(&contracts)).unwrap();
    for k in [a, b, n] {
        assert_eq!(reloaded.get_account_balance(k), h.get_account_balance(k));
        assert_eq!(
            reloaded.get_account_shadow_allocs_sum_of_all_contracts_in_sati_satoshis(k),
            h.get_account_shadow_allocs_sum_of_all_contracts_in_sati_satoshis(k)
        );
    }
    assert_eq!(reloaded.get_account_balance(n), Some(3));
    assert_eq!(reloaded.get_contract_allocs_sum_in_satoshis(c), Some(20));
    assert_eq!(
        reloaded.get_account_shadow_alloc_value_of_a_contract_in_sati_satoshis(c, a),
        h.get_account_shadow_alloc_value_of_a_contract_in_sati_satoshis(c, a)
    );
    assert_eq!(reloaded.get_account_shadow_alloc_value_of_a_contract_in_satoshis(c, a), Some(15));
}

#[test]
fn ch_registration_alone_is_not_in_the_trees() {
    // An account registered and applied with no balance or sum written has no tree to reload from.
    let n = key(0xD);
    let mut accounts: Store = BTreeMap::new();
    let mut contracts: Store = BTreeMap::new();
    let mut h = CoinHolder::new(&vec![], &vec![]).unwrap();
    h.register_account(n).unwrap();
    let mut ops = Vec::new();
    h.apply_changes(&mut ops).unwrap();
    assert!(h.is_account_registered(n));
    write_ch(&mut accounts, &mut contracts, &ops);
    let reloaded = CoinHolder::new(&trees(&accounts), &trees(&contracts)).unwrap();
    assert!(!reloaded.is_account_registered(n));
}

#[test]
fn gy_stored_entries_then_writes_rebuild_the_applied_state() {
    let (a, b, c) = (key(0xA), key(0xB), key(0xC));
    let stored = vec![
        (a.to_vec(), 900u64.to_le_bytes().to_vec()),
        (b.to_vec(), 40u64.to_le_bytes().to_vec()),
    ];
    let mut g = Graveyard::new(&stored).unwrap();
    g.redeem_account_coins(a).unwrap();
    g.bury_account(c, 700).unwrap();
    let mut ops = Vec::new();
    g.apply_changes(&mut ops);
    let mut entries = stored.clone();
    for op in ops {
        let GraveyardDiskOp::PutRedemptionAmount(k, v) = op;
        entries.push((k.to_vec(), v));
    }
    let reloaded = Graveyard::new(&entries).unwrap();
    for k in [a, b, c] {
        assert_eq!(reloaded.get_redemption_amount(k), g.get_redemption_amount(k));
    }
    assert_eq!(reloaded.get_redemption_amount(a), Some(0));
    assert_eq!(reloaded.get_redemption_amount(b), Some(40));
    assert_eq!(reloaded.get_redemption_amount(c), Some(700));
}

fn write_fm(store: &mut Store, ops: &[FMDiskOp]) {
    for op in ops {
        match op {
            FMDiskOp::PutFlameConfig(k, v) => put(store, k, vec![0], v.clone()),
            FMDiskOp::PutFlame(k, fk, v) => put(store, k, fk.to_vec(), v.clone()),
            FMDiskOp::RemoveFlame(k, fk) => remove(store, k, fk),
        }
    }
}

/// An account's flame set as heights, each with its flames as (index, bytes).
fn flame_set_bytes(fm: &FlameManager, k: [u8; 32]) -> Option<Vec<(u64, Vec<(u32, Vec<u8>)>)>> {
    fm.get_account_flame_set(k).map(|set| {
        set.iter().map(|(h, fl)| (*h, fl.iter().map(|(i, f)| (*i, f.to_bytes())).collect())).collect()
    })
}

#[test]
fn fm_writes_rebuild_the_applied_state() {
    let (a, b, c) = (key(0xA), key(0xB), key(0xC));
    let config = || FMAccountFlameConfig::new(Some((1, vec![0x51])), None, None, None, None, None, None, None);
    let cfg = config();
    let hundred = Flame::new(FlameTier::Tier1HundredSatoshis, vec![0x51]);
    let mut store: Store = BTreeMap::new();
    put(&mut store, &a, vec![0], cfg.to_db_value_bytes());
    put(&mut store, &a, flame_key(4, 0).to_vec(), hundred.to_bytes());
    put(&mut store, &a, flame_key(4, 1).to_vec(), hundred.to_bytes());
    put(&mut store, &a, flame_key(12, 2).to_vec(), hundred.to_bytes());
    put(&mut store, &c, vec![0], cfg.to_db_value_bytes());
    put(&mut store, &c, flame_key(15, 0).to_vec(), hundred.to_bytes());
    let mut fm = FlameManager::new(&trees(&store)).unwrap();
    fm.register_account(b, Some(config())).unwrap();
    // The coin manager lists account A as changed, with a balance of 500.
    let mut cm = CoinManager::new(&vec![], &vec![]).unwrap();
    cm.register_account(a, 0).unwrap();
    let mut cm_ops = Vec::new();
    cm.apply_changes(&mut cm_ops).unwrap();
    cm.flush_delta();
    cm.account_balance_up(a, 500).unwrap();
    cm.apply_changes(&mut cm_ops).unwrap();
    let mut ops = Vec::new();
    let projected = fm.apply_changes(&cm, 20, 10, &mut ops).unwrap();
    fm.flush_delta();
    // The flames at height 4 expire; the one at 12 stays and four more fund the gap to 500.
    assert_eq!(projected.len(), 1);
    assert_eq!(projected[0].1.len(), 4);
    let removed = ops.iter().filter(|op| matches!(op, FMDiskOp::RemoveFlame(_, _))).count();
    assert_eq!(removed, 2);
    write_fm(&mut store, &ops);
    let reloaded = FlameManager::new(&trees(&store)).unwrap();
    for k in [a, c] {
        assert_eq!(flame_set_bytes(&reloaded, k), flame_set_bytes(&fm, k));
    }
    let set = flame_set_bytes(&reloaded, a).unwrap();
    assert_eq!(set.len(), 2);
    assert_eq!(set[0].0, 12);
    assert_eq!(set[1].0, 20);
    assert_eq!(set[1].1.iter().map(|(i, _)| *i).collect::<Vec<u32>>(), vec![0, 1, 2, 3]);
    assert_eq!(flame_set_bytes(&fm, b), Some(vec![]));
    assert_eq!(reloaded.get_account_flame_config(b).unwrap().to_db_value_bytes(), cfg.to_db_value_bytes());
}

#[test]
fn cm_dealloc_writes_remove_the_stored_allocation() {
    let (a, c) = (key(0xA), key(0xC));
    let mut accounts: Store = BTreeMap::new();
    let mut contracts: Store = BTreeMap::new();
    put(&mut accounts, &a, vec![0], 100u64.to_le_bytes().to_vec());
    put(&mut accounts, &a, vec![1], 0u128.to_le_bytes().to_vec());
    put(&mut contracts, &c, vec![0; 32], 500u64.to_le_bytes().to_vec());
    put(&mut contracts, &c, vec![1; 32], 0u64.to_le_bytes().to_vec());
    put(&mut contracts, &c, a.to_vec(), 0u128.to_le_bytes().to_vec());
    let mut cm = CoinManager::new(&trees(&accounts), &trees(&contracts)).unwrap();
    assert_eq!(cm.get_contract_num_shadow_allocs(c), Some(1));
    cm.contract_shadow_dealloc_account(c, a).unwrap();
    let mut ops = Vec::new();
    cm.apply_changes(&mut ops).unwrap();
    cm.flush_delta();
    write_cm(&mut accounts, &mut contracts, &ops);
    assert!(!contracts[&c.to_vec()].contains_key(&a.to_vec()));
    let reloaded = CoinManager::new(&trees(&accounts), &trees(&contracts)).unwrap();
    assert_eq!(reloaded.get_contract_num_shadow_allocs(c), Some(0));
    assert_eq!(reloaded.get_shadow_alloc_value_in_sati_satoshis(c, a), None);
    assert_eq!(cm.get_contract_num_shadow_allocs(c), Some(0));
}

#[test]
fn ch_dealloc_writes_remove_the_stored_allocation() {
    let (a, c) = (key(0xA), key(0xC));
    let mut accounts: Store = BTreeMap::new();
    let mut contracts: Store = BTreeMap::new();
    put(&mut accounts, &a, vec![0], 100u64.to_le_bytes().to_vec());
    put(&mut contracts, &c, vec![0; 32], 500u64.to_le_bytes().to_vec());
    let mut h = CoinHolder::new(&trees(&accounts), &trees(&contracts)).unwrap();
    h.shadow_alloc_account(c, a).unwrap();
    let mut ops = Vec::new();
    h.apply_changes(&mut ops).unwrap();
    h.flush_delta();
    write_ch(&mut accounts, &mut contracts, &ops);
    assert!(contracts[&c.to_vec()].contains_key(&a.to_vec()));
    h.shadow_dealloc_account(c, a).unwrap();
    ops.clear();
    h.apply_changes(&mut ops).unwrap();
    h.flush_delta();
    write_ch(&mut accounts, &mut contracts, &ops);
    assert!(!contracts[&c.to_vec()].contains_key(&a.to_vec()));
    let reloaded = CoinHolder::new(&trees(&accounts), &trees(&contracts)).unwrap();
    assert_eq!(reloaded.get_contract_num_allocs(c), Some(0));
    assert_eq!(reloaded.get_account_shadow_alloc_value_of_a_contract_in_sati_satoshis(c, a), None);
}
