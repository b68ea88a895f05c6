use super::params_holder::ParamsHolder;
use super::params_manager::{params_loaded, params_writes, stored_flag, flag_byte};
use crate::codec::{le_encode, le_value, lemma_le_encode_len, lemma_le_round_trip, lemma_pow256_values};
use vstd::prelude::*;

verus! {

/// An amount written as eight little-endian bytes reads back as itself.
proof fn lemma_amount_round_trip(v: u64)
    ensures
        le_encode(v as nat, 8).len() == 8,
        le_value(le_encode(v as nat, 8)) as u64 == v,
{
    lemma_pow256_values();
    lemma_le_round_trip(v as nat, 8);
    lemma_le_encode_len(v as nat, 8);
}

/// Reading back the writes that store params, in order, over any params gives those params: what
/// applying the changes writes is what a params manager rebuilt from the store holds.
pub proof fn law_params_round_trip(h: ParamsHolder, entries: Seq<(Vec<u8>, Vec<u8>)>)
    requires
        entries.len() == 9,
        forall|i: int| 0 <= i < 9 ==> (#[trigger] entries[i].0@, entries[i].1@) == params_writes(h)[i],
    ensures
        params_loaded(entries) == h,
{
    lemma_amount_round_trip(h.move_entry_base_fee);
    lemma_amount_round_trip(h.call_entry_base_fee);
    lemma_amount_round_trip(h.call_entry_ppm_calldata_bytesize_fee);
    lemma_amount_round_trip(h.liftup_entry_base_fee);
    lemma_amount_round_trip(h.liftup_entry_per_lift_base_fee);
    lemma_amount_round_trip(h.move_ppm_liquidity_fee);
    lemma_amount_round_trip(h.in_call_ppm_liquidity_fee);
    assert(stored_flag(seq![flag_byte(h.account_can_initially_deploy_liquidity)]) == h.account_can_initially_deploy_liquidity);
    assert(stored_flag(seq![flag_byte(h.account_can_initially_deploy_contract)]) == h.account_can_initially_deploy_contract);
    assert(entries.subrange(0, 9) =~= entries);
    let e = |i: int| (entries[i].0@, entries[i].1@);
    assert(e(0) == params_writes(h)[0]);
    assert(e(1) == params_writes(h)[1]);
    assert(e(2) == params_writes(h)[2]);
    assert(e(3) == params_writes(h)[3]);
    assert(e(4) == params_writes(h)[4]);
    assert(e(5) == params_writes(h)[5]);
    assert(e(6) == params_writes(h)[6]);
    assert(e(7) == params_writes(h)[7]);
    assert(e(8) == params_writes(h)[8]);
    assert(entries.subrange(0, 1).drop_last() == entries.subrange(0, 0));
    assert(entries.subrange(0, 2).drop_last() == entries.subrange(0, 1));
    assert(entries.subrange(0, 3).drop_last() == entries.subrange(0, 2));
    assert(entries.subrange(0, 4).drop_last() == entries.subrange(0, 3));
    assert(entries.subrange(0, 5).drop_last() == entries.subrange(0, 4));
    assert(entries.subrange(0, 6).drop_last() == entries.subrange(0, 5));
    assert(entries.subrange(0, 7).drop_last() == entries.subrange(0, 6));
    assert(entries.subrange(0, 8).drop_last() == entries.subrange(0, 7));
    assert(entries.subrange(0, 9).drop_last() == entries.subrange(0, 8));
    let p1 = params_loaded(entries.subrange(0, 1));
    assert(p1 == ParamsHolder { account_can_initially_deploy_liquidity: h.account_can_initially_deploy_liquidity, ..params_loaded(entries.subrange(0, 0)) });
    let p2 = params_loaded(entries.subrange(0, 2));
    assert(p2 == ParamsHolder { account_can_initially_deploy_contract: h.account_can_initially_deploy_contract, ..p1 });
    let p3 = params_loaded(entries.subrange(0, 3));
    assert(p3 == ParamsHolder { move_entry_base_fee: h.move_entry_base_fee, ..p2 });
    let p4 = params_loaded(entries.subrange(0, 4));
    assert(p4 == ParamsHolder { call_entry_base_fee: h.call_entry_base_fee, ..p3 });
    let p5 = params_loaded(entries.subrange(0, 5));
    assert(p5 == ParamsHolder { call_entry_ppm_calldata_bytesize_fee: h.call_entry_ppm_calldata_bytesize_fee, ..p4 });
    let p6 = params_loaded(entries.subrange(0, 6));
    assert(p6 == ParamsHolder { liftup_entry_base_fee: h.liftup_entry_base_fee, ..p5 });
    let p7 = params_loaded(entries.subrange(0, 7));
    assert(p7 == ParamsHolder { liftup_entry_per_lift_base_fee: h.liftup_entry_per_lift_base_fee, ..p6 });
    let p8 = params_loaded(entries.subrange(0, 8));
    assert(p8 == ParamsHolder { move_ppm_liquidity_fee: h.move_ppm_liquidity_fee, ..p7 });
    let p9 = params_loaded(entries.subrange(0, 9));
    assert(p9 == ParamsHolder { in_call_ppm_liquidity_fee: h.in_call_ppm_liquidity_fee, ..p8 });
}

} // verus!
