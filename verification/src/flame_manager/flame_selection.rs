use super::flame::{Flame, FlameView};
use super::flame_config::{FMAccountFlameConfig, TierView};
use super::flame_tier::{tier_amount, FlameTier};
use crate::codec::bytes_copy;
use vstd::prelude::*;

verus! {

/// The fixed tier of each of the first seven slots of a flame configuration.
pub open spec fn slot_tier(i: int) -> FlameTier {
    if i == 0 {
        FlameTier::Tier1HundredSatoshis
    } else if i == 1 {
        FlameTier::Tier2ThousandSatoshis
    } else if i == 2 {
        FlameTier::Tier3ThousandSatoshis
    } else if i == 3 {
        FlameTier::Tier4TenThousandSatoshis
    } else if i == 4 {
        FlameTier::Tier5HundredThousandSatoshis
    } else if i == 5 {
        FlameTier::Tier6TenMillionSatoshis
    } else {
        FlameTier::Tier7HundredMillionSatoshis
    }
}

/// The set fixed tiers among the first `n` slots, largest first, each with its value and script
/// pubkey.
pub open spec fn available_tiers(c: Seq<Option<TierView>>, n: nat) -> Seq<(u64, Seq<u8>, FlameTier)>
    decreases n,
{
    if n == 0 {
        Seq::empty()
    } else {
        let rest = available_tiers(c, (n - 1) as nat);
        match c[n - 1] {
            Some(t) => seq![(tier_amount(slot_tier(n - 1)), t.spk, slot_tier(n - 1))] + rest,
            None => rest,
        }
    }
}

/// `n` copies of a flame.
pub open spec fn copies(n: nat, f: FlameView) -> Seq<FlameView> {
    Seq::new(n, |i: int| f)
}

/// Greedy selection: as many flames of each tier, largest first, as fit in what remains; stops once
/// nothing remains. Gives the flames and what remains.
pub open spec fn greedy(tiers: Seq<(u64, Seq<u8>, FlameTier)>, rem: u64) -> (Seq<FlameView>, u64)
    decreases tiers.len(),
{
    if tiers.len() == 0 || rem == 0 {
        (Seq::empty(), rem)
    } else {
        let (v, spk, t) = tiers[0];
        let cnt = rem / v;
        let (rest, r) = greedy(tiers.subrange(1, tiers.len() as int), (rem - cnt * v) as u64);
        (copies(cnt as nat, FlameView { tier: t, spk }) + rest, r)
    }
}

/// The flames that fund the gap between a target value and the current value of an account's flame
/// set: nothing unless the configuration is ready and the target is not below the current value;
/// one flame of the gap's amount when the any-amount tier is set; otherwise the greedy selection
/// over the set tiers, plus one flame of the smallest of them when a remainder is left.
pub open spec fn flames_to_fund(c: Seq<Option<TierView>>, target: u64, current: u64) -> Option<Seq<FlameView>> {
    if !(exists|i: int| 0 <= i < 5 && #[trigger] c[i] is Some) || target < current {
        None
    } else {
        let gap = (target - current) as u64;
        match c[7] {
            Some(t) => Some(seq![FlameView { tier: FlameTier::TierAnyAmount(gap), spk: t.spk }]),
            None => {
                let tiers = available_tiers(c, 7);
                let (fl, rem) = greedy(tiers, gap);
                if rem > 0 {
                    Some(fl.push(FlameView { tier: tiers.last().2, spk: tiers.last().1 }))
                } else {
                    Some(fl)
                }
            },
        }
    }
}

/// The views of a sequence of flames.
pub open spec fn flame_views(s: Seq<Flame>) -> Seq<FlameView> {
    s.map_values(|f: Flame| f@)
}

/// Every available tier has a positive value and its own tier.
pub proof fn lemma_available_tiers(c: Seq<Option<TierView>>, n: nat)
    requires
        n <= 7,
        c.len() == 8,
    ensures
        forall|j: int| 0 <= j < available_tiers(c, n).len() ==> {
            &&& (#[trigger] available_tiers(c, n)[j]).0 > 0
            &&& tier_amount(available_tiers(c, n)[j].2) == available_tiers(c, n)[j].0
        },
        available_tiers(c, n).len() == 0 <==> forall|i: int| 0 <= i < n ==> c[i] is None,
    decreases n,
{
    if n > 0 {
        lemma_available_tiers(c, (n - 1) as nat);
        let rest = available_tiers(c, (n - 1) as nat);
        if c[n - 1] is Some {
            let s = available_tiers(c, n);
            assert forall|j: int| 0 <= j < s.len() implies (#[trigger] s[j]).0 > 0 && tier_amount(s[j].2) == s[j].0 by {
                if j > 0 {
                    assert(s[j] == rest[j - 1]);
                }
            }
        }
    }
}

/// Collects the set fixed tiers of a configuration, largest first.
fn collect_available_tiers(c: &FMAccountFlameConfig) -> (r: Vec<(u64, Vec<u8>, FlameTier)>)
    ensures
        r@.map_values(|e: (u64, Vec<u8>, FlameTier)| (e.0, e.1@, e.2)) == available_tiers(c@, 7),
{
    let mut r: Vec<(u64, Vec<u8>, FlameTier)> = Vec::new();
    if let Some(t) = &c.tier_7_hundred_million_satoshis {
        r.push((100000000, bytes_copy(t.script_pubkey.as_slice()), FlameTier::Tier7HundredMillionSatoshis));
    }
    if let Some(t) = &c.tier_6_ten_million_satoshis {
        r.push((10000000, bytes_copy(t.script_pubkey.as_slice()), FlameTier::Tier6TenMillionSatoshis));
    }
    if let Some(t) = &c.tier_5_one_million_satoshis {
        r.push((1000000, bytes_copy(t.script_pubkey.as_slice()), FlameTier::Tier5HundredThousandSatoshis));
    }
    if let Some(t) = &c.tier_4_hundred_thousand_satoshis {
        r.push((100000, bytes_copy(t.script_pubkey.as_slice()), FlameTier::Tier4TenThousandSatoshis));
    }
    if let Some(t) = &c.tier_3_ten_thousand_satoshis {
        r.push((10000, bytes_copy(t.script_pubkey.as_slice()), FlameTier::Tier3ThousandSatoshis));
    }
    if let Some(t) = &c.tier_2_thousand_satoshis {
        r.push((1000, bytes_copy(t.script_pubkey.as_slice()), FlameTier::Tier2ThousandSatoshis));
    }
    if let Some(t) = &c.tier_1_hundred_satoshis {
        r.push((100, bytes_copy(t.script_pubkey.as_slice()), FlameTier::Tier1HundredSatoshis));
    }
    proof {
        let cv = c@;
        reveal_with_fuel(available_tiers, 8);
        assert(r@.map_values(|e: (u64, Vec<u8>, FlameTier)| (e.0, e.1@, e.2)) =~= available_tiers(cv, 7));
    }
    r
}

/// The flames that fund the gap between a target value and the current value of an account's flame
/// set, as `flames_to_fund` describes.
pub fn return_flames_to_fund(flame_config: &FMAccountFlameConfig, target_value: u64, current_flame_set_sum_value: u64) -> (r: Option<Vec<Flame>>)
    ensures
        match r {
            None => flames_to_fund(flame_config@, target_value, current_flame_set_sum_value) is None,
            Some(v) => flames_to_fund(flame_config@, target_value, current_flame_set_sum_value) == Some(flame_views(v@)),
        },
{
    if !flame_config.is_ready() {
        return None;
    }
    if target_value < current_flame_set_sum_value {
        return None;
    }
    let gap = target_value - current_flame_set_sum_value;
    let mut flames: Vec<Flame> = Vec::new();
    match &flame_config.tier_any_amount {
        Some(t) => {
            flames.push(Flame::new(FlameTier::TierAnyAmount(gap), bytes_copy(t.script_pubkey.as_slice())));
            proof {
                assert(flame_views(flames@) =~= seq![FlameView { tier: FlameTier::TierAnyAmount(gap), spk: t.script_pubkey@ }]);
            }
            return Some(flames);
        },
        None => {},
    }
    let tiers = collect_available_tiers(flame_config);
    let ghost tv = tiers@.map_values(|e: (u64, Vec<u8>, FlameTier)| (e.0, e.1@, e.2));
    proof {
        lemma_available_tiers(flame_config@, 7);
        if tiers.len() == 0 {
            let i = choose|i: int| 0 <= i < 5 && #[trigger] flame_config@[i] is Some;
            assert(flame_config@[i] is None);
        }
    }
    let n = tiers.len();
    let mut rem = gap;
    let mut k: usize = 0;
    proof {
        assert(tv.subrange(0, n as int) =~= tv);
        assert(flame_views(flames@) =~= Seq::<FlameView>::empty());
        let (rest, r) = greedy(tv, gap);
        assert(Seq::<FlameView>::empty() + rest =~= rest);
    }
    while k < n && rem > 0
        invariant
            0 <= k <= n,
            n == tiers@.len(),
            n > 0,
            tv == tiers@.map_values(|e: (u64, Vec<u8>, FlameTier)| (e.0, e.1@, e.2)),
            forall|j: int| 0 <= j < tv.len() ==> (#[trigger] tv[j]).0 > 0,
            greedy(tv, gap) == ({
                let (rest, r) = greedy(tv.subrange(k as int, n as int), rem);
                (flame_views(flames@) + rest, r)
            }),
        decreases n - k,
    {
        let v = tiers[k].0;
        let t = tiers[k].2;
        let cnt = rem / v;
        let ghost before = flame_views(flames@);
        let ghost spk = tiers[k as int].1@;
        let mut c: u64 = 0;
        while c < cnt
            invariant
                0 <= c <= cnt,
                k < n,
                n == tiers@.len(),
                spk == tiers@[k as int].1@,
                flame_views(flames@) == before + copies(c as nat, FlameView { tier: t, spk }),
            decreases cnt - c,
        {
            let f = Flame::new(t, bytes_copy(tiers[k].1.as_slice()));
            let ghost fv = f@;
            let ghost pre = flame_views(flames@);
            proof {
                assert(fv == FlameView { tier: t, spk });
            }
            flames.push(f);
            proof {
                assert(flame_views(flames@) =~= pre.push(fv));
                assert(copies((c + 1) as nat, FlameView { tier: t, spk })
                    =~= copies(c as nat, FlameView { tier: t, spk }).push(fv));
                assert(flame_views(flames@) =~= before + copies((c + 1) as nat, FlameView { tier: t, spk }));
            }
            c = c + 1;
        }
        proof {
            let s = tv.subrange(k as int, n as int);
            assert(s[0] == tv[k as int]);
            assert(s.subrange(1, s.len() as int) =~= tv.subrange(k + 1, n as int));
            assert(cnt * v <= rem) by (nonlinear_arith)
                requires cnt == rem / v, v > 0;
            let (rest, r) = greedy(tv.subrange(k + 1, n as int), (rem - cnt * v) as u64);
            assert(before + (copies(cnt as nat, FlameView { tier: t, spk }) + rest)
                =~= flame_views(flames@) + rest);
        }
        rem = rem - cnt * v;
        k = k + 1;
    }
    proof {
        let s = tv.subrange(k as int, n as int);
        assert(greedy(s, rem) == (Seq::<FlameView>::empty(), rem));
        assert(flame_views(flames@) + Seq::<FlameView>::empty() =~= flame_views(flames@));
    }
    if rem > 0 {
        let last = n - 1;
        let f = Flame::new(tiers[last].2, bytes_copy(tiers[last].1.as_slice()));
        let ghost before = flame_views(flames@);
        flames.push(f);
        proof {
            assert(tv.last() == tv[last as int]);
            assert(flame_views(flames@) =~= before.push(FlameView { tier: tv.last().2, spk: tv.last().1 }));
        }
    }
    Some(flames)
}

/// The total satoshi value of flames.
pub open spec fn flames_value(s: Seq<FlameView>) -> int
    decreases s.len(),
{
    if s.len() == 0 {
        0
    } else {
        flames_value(s.drop_last()) + tier_amount(s.last().tier)
    }
}

/// The value of two runs of flames is the sum of their values.
pub proof fn lemma_flames_value_concat(a: Seq<FlameView>, b: Seq<FlameView>)
    ensures
        flames_value(a + b) == flames_value(a) + flames_value(b),
    decreases b.len(),
{
    if b.len() == 0 {
        assert(a + b =~= a);
    } else {
        lemma_flames_value_concat(a, b.drop_last());
        assert((a + b).drop_last() =~= a + b.drop_last());
    }
}

/// The value of `n` copies of a flame is `n` times its value.
pub proof fn lemma_flames_value_copies(n: nat, f: FlameView)
    ensures
        flames_value(copies(n, f)) == n * tier_amount(f.tier),
    decreases n,
{
    if n > 0 {
        lemma_flames_value_copies((n - 1) as nat, f);
        assert(copies(n, f).drop_last() =~= copies((n - 1) as nat, f));
        assert(copies(n, f).last() == f);
        let m = (n - 1) as nat;
        let a = tier_amount(f.tier);
        assert(n * a == m * a + a) by (nonlinear_arith)
            requires m == n - 1;
        assert(flames_value(copies(n, f)) == flames_value(copies(m, f)) + a);
    } else {
        assert(copies(n, f).len() == 0);
        assert(flames_value(copies(n, f)) == 0);
        assert(n * tier_amount(f.tier) == 0);
    }
}

/// The greedy selection's flames and remainder add up to the amount it started from, and a remainder
/// is below the value of the last tier.
pub proof fn lemma_greedy(tiers: Seq<(u64, Seq<u8>, FlameTier)>, rem: u64)
    requires
        forall|j: int| 0 <= j < tiers.len() ==> {
            &&& (#[trigger] tiers[j]).0 > 0
            &&& tier_amount(tiers[j].2) == tiers[j].0
        },
    ensures
        flames_value(greedy(tiers, rem).0) + greedy(tiers, rem).1 == rem,
        tiers.len() > 0 ==> greedy(tiers, rem).1 == 0 || greedy(tiers, rem).1 < tiers.last().0,
    decreases tiers.len(),
{
    if tiers.len() > 0 && rem > 0 {
        let (v, spk, t) = tiers[0];
        let cnt = rem / v;
        let tail = tiers.subrange(1, tiers.len() as int);
        assert(cnt * v <= rem && rem - cnt * v < v) by (nonlinear_arith)
            requires cnt == rem / v, v > 0;
        let r2 = (rem - cnt * v) as u64;
        lemma_greedy(tail, r2);
        let copies = copies(cnt as nat, FlameView { tier: t, spk });
        lemma_flames_value_copies(cnt as nat, FlameView { tier: t, spk });
        lemma_flames_value_concat(copies, greedy(tail, r2).0);
        if tail.len() > 0 {
            assert(tail.last() == tiers.last());
        }
    } else if tiers.len() == 0 {
    } else {
    }
}

/// The flames selected to fund a gap are worth the gap when the any-amount tier is set, and
/// otherwise at least the gap and less than the gap plus the value of the smallest set tier.
pub proof fn law_flames_to_fund_cover_the_gap(c: Seq<Option<TierView>>, target: u64, current: u64)
    requires
        c.len() == 8,
        flames_to_fund(c, target, current) is Some,
    ensures
        ({
            let fl = flames_to_fund(c, target, current)->Some_0;
            let gap = target - current;
            if c[7] is Some {
                flames_value(fl) == gap
            } else {
                &&& gap <= flames_value(fl)
                &&& flames_value(fl) < gap + available_tiers(c, 7).last().0
            }
        }),
{
    let gap = (target - current) as u64;
    let fl = flames_to_fund(c, target, current)->Some_0;
    if c[7] is Some {
        assert(fl.drop_last() =~= Seq::<FlameView>::empty());
        assert(flames_value(fl.drop_last()) == 0);
        assert(fl.last().tier == FlameTier::TierAnyAmount(gap));
    } else {
        let tiers = available_tiers(c, 7);
        lemma_available_tiers(c, 7);
        if tiers.len() == 0 {
            let i = choose|i: int| 0 <= i < 5 && #[trigger] c[i] is Some;
            assert(c[i] is None);
        }
        lemma_greedy(tiers, gap);
        let (g, rem) = greedy(tiers, gap);
        assert(tiers.last() == tiers[tiers.len() - 1]);
        assert(tiers.last().0 > 0);
        if rem > 0 {
            let last = FlameView { tier: tiers.last().2, spk: tiers.last().1 };
            assert(g.push(last).drop_last() =~= g);
            assert(tiers.last() == tiers[tiers.len() - 1]);
        }
    }
}

/// Each of the seven fixed slots of a configuration holds the tier of its name: hundred satoshis,
/// then each next slot ten times the value of the one before.
pub proof fn law_slot_tiers()
    ensures
        slot_tier(0) == FlameTier::Tier1HundredSatoshis,
        slot_tier(1) == FlameTier::Tier2ThousandSatoshis,
        slot_tier(2) == FlameTier::Tier3ThousandSatoshis,
        slot_tier(3) == FlameTier::Tier4TenThousandSatoshis,
        slot_tier(4) == FlameTier::Tier5HundredThousandSatoshis,
        slot_tier(5) == FlameTier::Tier6TenMillionSatoshis,
        slot_tier(6) == FlameTier::Tier7HundredMillionSatoshis,
        tier_amount(slot_tier(0)) == 100,
        forall|i: int| 0 <= i < 6 ==> #[trigger] tier_amount(slot_tier(i + 1)) == 10 * tier_amount(slot_tier(i)),
{
}

/// The values of the fixed slots grow with the slot, and each divides every larger one.
pub proof fn lemma_slot_values()
    ensures
        forall|i: int| 0 <= i < 7 ==> #[trigger] tier_amount(slot_tier(i)) > 0,
        forall|i: int, j: int| 0 <= i < j < 7 ==> tier_amount(#[trigger] slot_tier(i)) < tier_amount(#[trigger] slot_tier(j))
            && tier_amount(slot_tier(j)) % tier_amount(slot_tier(i)) == 0,
{
    assert forall|i: int, j: int| 0 <= i < j < 7 implies tier_amount(#[trigger] slot_tier(i)) < tier_amount(#[trigger] slot_tier(j))
        && tier_amount(slot_tier(j)) % tier_amount(slot_tier(i)) == 0 by {
        if i == 0 {
            assert(1000u64 % 100u64 == 0 && 10000u64 % 100u64 == 0 && 100000u64 % 100u64 == 0 && 1000000u64 % 100u64 == 0
                && 10000000u64 % 100u64 == 0 && 100000000u64 % 100u64 == 0);
        } else if i == 1 {
            assert(10000u64 % 1000u64 == 0 && 100000u64 % 1000u64 == 0 && 1000000u64 % 1000u64 == 0
                && 10000000u64 % 1000u64 == 0 && 100000000u64 % 1000u64 == 0);
        } else if i == 2 {
            assert(100000u64 % 10000u64 == 0 && 1000000u64 % 10000u64 == 0 && 10000000u64 % 10000u64 == 0 && 100000000u64 % 10000u64 == 0);
        } else if i == 3 {
            assert(1000000u64 % 100000u64 == 0 && 10000000u64 % 100000u64 == 0 && 100000000u64 % 100000u64 == 0);
        } else if i == 4 {
            assert(10000000u64 % 1000000u64 == 0 && 100000000u64 % 1000000u64 == 0);
        } else {
            assert(100000000u64 % 10000000u64 == 0);
        }
    }
}

/// Tiers to select from, largest first: each with a positive value that is its tier's, each value
/// strictly above and a multiple of every later one.
pub open spec fn tiers_ordered(ts: Seq<(u64, Seq<u8>, FlameTier)>) -> bool {
    &&& forall|j: int| 0 <= j < ts.len() ==> (#[trigger] ts[j]).0 > 0 && tier_amount(ts[j].2) == ts[j].0
    &&& forall|a: int, b: int| 0 <= a < b < ts.len() ==> (#[trigger] ts[a]).0 > (#[trigger] ts[b]).0 && ts[a].0 % ts[b].0 == 0
}

/// The slot of a fixed tier.
pub open spec fn slot_of(t: FlameTier) -> int {
    match t {
        FlameTier::Tier1HundredSatoshis => 0,
        FlameTier::Tier2ThousandSatoshis => 1,
        FlameTier::Tier3ThousandSatoshis => 2,
        FlameTier::Tier4TenThousandSatoshis => 3,
        FlameTier::Tier5HundredThousandSatoshis => 4,
        FlameTier::Tier6TenMillionSatoshis => 5,
        FlameTier::Tier7HundredMillionSatoshis => 6,
        FlameTier::TierAnyAmount(_) => 7,
    }
}

/// The entry of a set slot among the tiers to select from: its value, script pubkey and tier.
pub open spec fn slot_entry(c: Seq<Option<TierView>>, i: int) -> (u64, Seq<u8>, FlameTier) {
    (tier_amount(slot_tier(i)), c[i]->Some_0.spk, slot_tier(i))
}

/// Every available tier is the entry of a set slot among the first `n`.
#[verifier::spinoff_prover]
pub proof fn lemma_available_tiers_from_slots(c: Seq<Option<TierView>>, n: nat)
    requires
        n <= 7,
        c.len() == 8,
    ensures
        forall|j: int| 0 <= j < available_tiers(c, n).len() ==> {
            let i = slot_of((#[trigger] available_tiers(c, n)[j]).2);
            &&& 0 <= i < n
            &&& c[i] is Some
            &&& available_tiers(c, n)[j] == slot_entry(c, i)
        },
    decreases n,
{
    if n > 0 {
        let m = (n - 1) as nat;
        lemma_available_tiers_from_slots(c, m);
        let rest = available_tiers(c, m);
        let ts = available_tiers(c, n);
        if c[m as int] is Some {
            assert forall|j: int| 0 <= j < ts.len() implies {
                let i = slot_of((#[trigger] ts[j]).2);
                &&& 0 <= i < n
                &&& c[i] is Some
                &&& ts[j] == slot_entry(c, i)
            } by {
                if j > 0 {
                    assert(ts[j] == rest[j - 1]);
                }
            }
        }
    }
}

/// Every set slot among the first `n` has its entry among the available tiers.
#[verifier::spinoff_prover]
pub proof fn lemma_available_tiers_complete(c: Seq<Option<TierView>>, n: nat)
    requires
        n <= 7,
        c.len() == 8,
    ensures
        forall|i: int| 0 <= i < n && #[trigger] c[i] is Some ==> available_tiers(c, n).contains(slot_entry(c, i)),
    decreases n,
{
    if n > 0 {
        let m = (n - 1) as nat;
        lemma_available_tiers_complete(c, m);
        let rest = available_tiers(c, m);
        let ts = available_tiers(c, n);
        assert forall|i: int| 0 <= i < n && #[trigger] c[i] is Some implies ts.contains(slot_entry(c, i)) by {
            if c[m as int] is Some {
                if i == m {
                    assert(ts[0] == slot_entry(c, i));
                } else {
                    assert(rest.contains(slot_entry(c, i)));
                    let a = choose|a: int| 0 <= a < rest.len() && rest[a] == slot_entry(c, i);
                    assert(ts[a + 1] == rest[a]);
                }
            } else {
                assert(i != m);
            }
        }
    }
}

/// The available tiers are ordered for the greedy selection.
#[verifier::spinoff_prover]
pub proof fn lemma_available_tiers_ordered(c: Seq<Option<TierView>>, n: nat)
    requires
        n <= 7,
        c.len() == 8,
    ensures
        tiers_ordered(available_tiers(c, n)),
    decreases n,
{
    lemma_slot_values();
    if n > 0 {
        let m = (n - 1) as nat;
        lemma_available_tiers_ordered(c, m);
        lemma_available_tiers_from_slots(c, m);
        let rest = available_tiers(c, m);
        let ts = available_tiers(c, n);
        if c[m as int] is Some {
            assert forall|j: int| 0 <= j < ts.len() implies (#[trigger] ts[j]).0 > 0 && tier_amount(ts[j].2) == ts[j].0 by {
                if j > 0 {
                    assert(ts[j] == rest[j - 1]);
                }
            }
            assert forall|a: int, b: int| 0 <= a < b < ts.len() implies (#[trigger] ts[a]).0 > (#[trigger] ts[b]).0
                && ts[a].0 % ts[b].0 == 0 by {
                assert(ts[b] == rest[b - 1]);
                if a == 0 {
                    let i = slot_of(rest[b - 1].2);
                    assert(0 <= i < m);
                    assert(tier_amount(slot_tier(i)) < tier_amount(slot_tier(m as int)));
                } else {
                    assert(ts[a] == rest[a - 1]);
                }
            }
        }
    }
}

/// The number of flames of a tier.
pub open spec fn tier_count(s: Seq<FlameView>, t: FlameTier) -> nat
    decreases s.len(),
{
    if s.len() == 0 {
        0
    } else {
        tier_count(s.drop_last(), t) + if s.last().tier == t {
            1nat
        } else {
            0nat
        }
    }
}

/// Counting over two runs of flames adds up.
pub proof fn lemma_tier_count_concat(a: Seq<FlameView>, b: Seq<FlameView>, t: FlameTier)
    ensures
        tier_count(a + b, t) == tier_count(a, t) + tier_count(b, t),
    decreases b.len(),
{
    if b.len() == 0 {
        assert(a + b =~= a);
    } else {
        lemma_tier_count_concat(a, b.drop_last(), t);
        assert((a + b).drop_last() =~= a + b.drop_last());
    }
}

/// `n` copies of a flame count `n` for its tier and none for another.
pub proof fn lemma_tier_count_copies(n: nat, f: FlameView, t: FlameTier)
    ensures
        tier_count(copies(n, f), t) == if f.tier == t {
            n
        } else {
            0
        },
    decreases n,
{
    if n > 0 {
        lemma_tier_count_copies((n - 1) as nat, f, t);
        assert(copies(n, f).drop_last() =~= copies((n - 1) as nat, f));
    } else {
        assert(copies(n, f).len() == 0);
    }
}

/// The tail of ordered tiers is ordered.
pub proof fn lemma_tiers_ordered_tail(ts: Seq<(u64, Seq<u8>, FlameTier)>)
    requires
        tiers_ordered(ts),
        ts.len() > 0,
    ensures
        tiers_ordered(ts.subrange(1, ts.len() as int)),
{
    let tail = ts.subrange(1, ts.len() as int);
    assert forall|j: int| 0 <= j < tail.len() implies (#[trigger] tail[j]).0 > 0 && tier_amount(tail[j].2) == tail[j].0 by {
        assert(tail[j] == ts[j + 1]);
    }
    assert forall|a: int, b: int| 0 <= a < b < tail.len() implies (#[trigger] tail[a]).0 > (#[trigger] tail[b]).0
        && tail[a].0 % tail[b].0 == 0 by {
        assert(tail[a] == ts[a + 1] && tail[b] == ts[b + 1]);
    }
}

/// One step of the greedy selection: as many flames of the first tier as fit, then the selection
/// over the other tiers from what remains, which is below the first tier's value.
pub proof fn lemma_greedy_step(ts: Seq<(u64, Seq<u8>, FlameTier)>, rem: u64)
    requires
        tiers_ordered(ts),
        ts.len() > 0,
        rem > 0,
    ensures
        ({
            let cnt = rem / ts[0].0;
            let r2 = (rem - cnt * ts[0].0) as u64;
            let tail = ts.subrange(1, ts.len() as int);
            &&& cnt * ts[0].0 <= rem
            &&& r2 < ts[0].0
            &&& r2 <= rem
            &&& tiers_ordered(tail)
            &&& greedy(ts, rem).0 == copies(cnt as nat, FlameView { tier: ts[0].2, spk: ts[0].1 }) + greedy(tail, r2).0
            &&& forall|j: int| 0 <= j < tail.len() ==> #[trigger] tail[j] == ts[j + 1]
        }),
{
    let v = ts[0].0;
    let cnt = rem / v;
    assert(cnt * v <= rem && rem - cnt * v < v) by (nonlinear_arith)
        requires cnt == rem / v, v > 0;
    lemma_tiers_ordered_tail(ts);
}

/// Ordered tiers are told apart by their tiers.
pub proof fn lemma_tiers_distinct(ts: Seq<(u64, Seq<u8>, FlameTier)>)
    requires
        tiers_ordered(ts),
    ensures
        forall|a: int, b: int| 0 <= a < ts.len() && 0 <= b < ts.len() && a != b ==>
            (#[trigger] ts[a]).2 != (#[trigger] ts[b]).2,
{
    assert forall|a: int, b: int| 0 <= a < ts.len() && 0 <= b < ts.len() && a != b implies
        (#[trigger] ts[a]).2 != (#[trigger] ts[b]).2 by {
        if a < b {
            assert(ts[a].0 > ts[b].0);
        } else {
            assert(ts[b].0 > ts[a].0);
        }
    }
}

/// Every flame the greedy selection gives is one of the tiers, with its script pubkey.
#[verifier::spinoff_prover]
pub proof fn lemma_greedy_members(ts: Seq<(u64, Seq<u8>, FlameTier)>, rem: u64)
    requires
        tiers_ordered(ts),
    ensures
        forall|x: int| 0 <= x < greedy(ts, rem).0.len() ==> exists|a: int| #![trigger ts[a]] 0 <= a < ts.len()
            && (#[trigger] greedy(ts, rem).0[x]).tier == ts[a].2 && greedy(ts, rem).0[x].spk == ts[a].1,
    decreases ts.len(),
{
    if ts.len() > 0 && rem > 0 {
        lemma_greedy_step(ts, rem);
        let cnt = rem / ts[0].0;
        let r2 = (rem - cnt * ts[0].0) as u64;
        let tail = ts.subrange(1, ts.len() as int);
        lemma_greedy_members(tail, r2);
        let g = greedy(ts, rem).0;
        let g2 = greedy(tail, r2).0;
        assert forall|x: int| 0 <= x < g.len() implies exists|a: int| #![trigger ts[a]] 0 <= a < ts.len()
            && (#[trigger] g[x]).tier == ts[a].2 && g[x].spk == ts[a].1 by {
            if x < cnt {
                assert(g[x] == FlameView { tier: ts[0].2, spk: ts[0].1 });
            } else {
                assert(g[x] == g2[x - cnt]);
                let a2 = choose|a2: int| #![trigger tail[a2]] 0 <= a2 < tail.len() && g2[x - cnt].tier == tail[a2].2 && g2[x - cnt].spk == tail[a2].1;
                assert(ts[a2 + 1] == tail[a2]);
            }
        }
    } else {
        assert(greedy(ts, rem).0.len() == 0);
    }
}

/// The greedy selection gives its flames largest first, none below the last tier.
#[verifier::spinoff_prover]
pub proof fn lemma_greedy_sorted(ts: Seq<(u64, Seq<u8>, FlameTier)>, rem: u64)
    requires
        tiers_ordered(ts),
    ensures
        forall|x: int, y: int| 0 <= x < y < greedy(ts, rem).0.len()
            ==> tier_amount((#[trigger] greedy(ts, rem).0[x]).tier) >= tier_amount((#[trigger] greedy(ts, rem).0[y]).tier),
        forall|x: int| 0 <= x < greedy(ts, rem).0.len() ==> tier_amount((#[trigger] greedy(ts, rem).0[x]).tier) >= ts.last().0,
    decreases ts.len(),
{
    if ts.len() > 0 && rem > 0 {
        lemma_greedy_step(ts, rem);
        let cnt = rem / ts[0].0;
        let r2 = (rem - cnt * ts[0].0) as u64;
        let tail = ts.subrange(1, ts.len() as int);
        lemma_greedy_sorted(tail, r2);
        lemma_greedy_members(tail, r2);
        let g = greedy(ts, rem).0;
        let g2 = greedy(tail, r2).0;
        let f0 = FlameView { tier: ts[0].2, spk: ts[0].1 };
        assert forall|x: int| 0 <= x < g.len() implies tier_amount((#[trigger] g[x]).tier) >= ts.last().0 by {
            if x < cnt {
                assert(g[x] == f0);
                if ts.len() > 1 {
                    assert(ts[0].0 > ts[ts.len() - 1].0);
                }
            } else {
                assert(g[x] == g2[x - cnt]);
                let a2 = choose|a2: int| #![trigger tail[a2]] 0 <= a2 < tail.len() && g2[x - cnt].tier == tail[a2].2 && g2[x - cnt].spk == tail[a2].1;
                assert(tail.last() == ts.last());
            }
        }
        assert forall|x: int, y: int| 0 <= x < y < g.len() implies
            tier_amount((#[trigger] g[x]).tier) >= tier_amount((#[trigger] g[y]).tier) by {
            if y < cnt {
                assert(g[x] == f0 && g[y] == f0);
            } else if x < cnt {
                assert(g[x] == f0);
                assert(g[y] == g2[y - cnt]);
                let a2 = choose|a2: int| #![trigger tail[a2]] 0 <= a2 < tail.len() && g2[y - cnt].tier == tail[a2].2 && g2[y - cnt].spk == tail[a2].1;
                assert(ts[a2 + 1] == tail[a2]);
                assert(ts[0].0 > ts[a2 + 1].0);
            } else {
                assert(g[x] == g2[x - cnt] && g[y] == g2[y - cnt]);
            }
        }
    } else {
        assert(greedy(ts, rem).0.len() == 0);
    }
}

/// How many flames of each tier the greedy selection gives: a tier that is not among the tiers never;
/// each tier's flames are worth at most what was to select and, but for the first tier, less than
/// the tier before.
#[verifier::spinoff_prover]
pub proof fn lemma_greedy_counts(ts: Seq<(u64, Seq<u8>, FlameTier)>, rem: u64)
    requires
        tiers_ordered(ts),
    ensures
        forall|t: FlameTier| (forall|a: int| 0 <= a < ts.len() ==> (#[trigger] ts[a]).2 != t)
            ==> #[trigger] tier_count(greedy(ts, rem).0, t) == 0,
        forall|a: int| 0 <= a < ts.len() ==> tier_count(greedy(ts, rem).0, (#[trigger] ts[a]).2) * ts[a].0 <= rem,
        forall|a: int| 1 <= a < ts.len() ==> tier_count(greedy(ts, rem).0, (#[trigger] ts[a]).2) * ts[a].0 < ts[a - 1].0,
    decreases ts.len(),
{
    let g = greedy(ts, rem).0;
    if ts.len() > 0 && rem > 0 {
        lemma_greedy_step(ts, rem);
        lemma_tiers_distinct(ts);
        let cnt = rem / ts[0].0;
        let r2 = (rem - cnt * ts[0].0) as u64;
        let tail = ts.subrange(1, ts.len() as int);
        lemma_greedy_counts(tail, r2);
        let g2 = greedy(tail, r2).0;
        let f0 = FlameView { tier: ts[0].2, spk: ts[0].1 };
        let cp = copies(cnt as nat, f0);
        assert forall|t: FlameTier| (forall|a: int| 0 <= a < ts.len() ==> (#[trigger] ts[a]).2 != t)
            implies #[trigger] tier_count(g, t) == 0 by {
            lemma_tier_count_concat(cp, g2, t);
            lemma_tier_count_copies(cnt as nat, f0, t);
            assert(ts[0].2 != t);
            assert forall|a: int| 0 <= a < tail.len() implies (#[trigger] tail[a]).2 != t by {
                assert(tail[a] == ts[a + 1]);
            }
        }
        assert forall|a: int| 0 <= a < ts.len() implies tier_count(g, (#[trigger] ts[a]).2) * ts[a].0 <= rem by {
            let t = ts[a].2;
            lemma_tier_count_concat(cp, g2, t);
            lemma_tier_count_copies(cnt as nat, f0, t);
            if a == 0 {
                assert forall|b: int| 0 <= b < tail.len() implies (#[trigger] tail[b]).2 != t by {
                    assert(tail[b] == ts[b + 1]);
                }
                assert(tier_count(g2, t) == 0);
            } else {
                assert(ts[0].2 != ts[a].2);
                assert(tail[a - 1] == ts[a]);
                assert(tier_count(g2, tail[a - 1].2) * tail[a - 1].0 <= r2);
            }
        }
        assert forall|a: int| 1 <= a < ts.len() implies tier_count(g, (#[trigger] ts[a]).2) * ts[a].0 < ts[a - 1].0 by {
            let t = ts[a].2;
            lemma_tier_count_concat(cp, g2, t);
            lemma_tier_count_copies(cnt as nat, f0, t);
            assert(ts[0].2 != ts[a].2);
            assert(tail[a - 1] == ts[a]);
            if a == 1 {
                assert(tier_count(g2, tail[0].2) * tail[0].0 <= r2);
            } else {
                assert(tail[a - 2] == ts[a - 1]);
                assert(tier_count(g2, tail[a - 1].2) * tail[a - 1].0 < tail[a - 2].0);
            }
        }
    } else {
        assert(g.len() == 0);
        assert forall|a: int| 0 <= a < ts.len() implies tier_count(g, (#[trigger] ts[a]).2) * ts[a].0 <= rem by {
            assert(tier_count(g, ts[a].2) == 0);
        }
        assert forall|a: int| 1 <= a < ts.len() implies tier_count(g, (#[trigger] ts[a]).2) * ts[a].0 < ts[a - 1].0 by {
            assert(tier_count(g, ts[a].2) == 0);
            assert(ts[a - 1].0 > 0);
        }
    }
}

/// A count of a value that stays below a multiple of the value leaves room for one more.
pub proof fn lemma_one_more_fits(k: int, v: int, w: int)
    requires
        v > 0,
        w >= 0,
        k >= 0,
        k * v < w,
        w % v == 0,
    ensures
        (k + 1) * v <= w,
{
    let q = w / v;
    assert(w == q * v) by (nonlinear_arith)
        requires v > 0, w % v == 0, q == w / v;
    assert(k < q) by (nonlinear_arith)
        requires k * v < q * v, v > 0;
    assert((k + 1) * v <= q * v) by (nonlinear_arith)
        requires k + 1 <= q, v > 0;
}

/// Without the any-amount tier, the funding flames are the greedy selection over the available tiers,
/// with one flame of the last of them added when a remainder is left.
pub proof fn lemma_fund_parts(c: Seq<Option<TierView>>, target: u64, current: u64)
    requires
        c.len() == 8,
        c[7] is None,
        flames_to_fund(c, target, current) is Some,
    ensures
        ({
            let ts = available_tiers(c, 7);
            let gap = (target - current) as u64;
            let g = greedy(ts, gap).0;
            let lastf = FlameView { tier: ts.last().2, spk: ts.last().1 };
            &&& ts.len() > 0
            &&& tiers_ordered(ts)
            &&& target >= current
            &&& flames_to_fund(c, target, current)->Some_0 == if greedy(ts, gap).1 > 0 { g.push(lastf) } else { g }
        }),
{
    let ts = available_tiers(c, 7);
    lemma_available_tiers_complete(c, 7);
    lemma_available_tiers_ordered(c, 7);
    let i0 = choose|i: int| 0 <= i < 5 && #[trigger] c[i] is Some;
    assert(ts.contains(slot_entry(c, i0)));
}

/// The funding flames are worth less than the gap plus the value of any set tier.
#[verifier::spinoff_prover]
pub proof fn lemma_fund_value_below(c: Seq<Option<TierView>>, target: u64, current: u64)
    requires
        c.len() == 8,
        c[7] is None,
        flames_to_fund(c, target, current) is Some,
    ensures
        forall|i: int| 0 <= i < 7 && #[trigger] c[i] is Some
            ==> flames_value(flames_to_fund(c, target, current)->Some_0) < (target - current) + tier_amount(slot_tier(i)),
{
    let ts = available_tiers(c, 7);
    law_flames_to_fund_cover_the_gap(c, target, current);
    lemma_available_tiers_complete(c, 7);
    lemma_available_tiers_ordered(c, 7);
    lemma_fund_parts(c, target, current);
    let l = ts.len() - 1;
    assert(ts.last() == ts[l]);
    assert forall|i: int| 0 <= i < 7 && #[trigger] c[i] is Some implies tier_amount(slot_tier(i)) >= ts.last().0 by {
        let a = choose|a: int| 0 <= a < ts.len() && ts[a] == slot_entry(c, i);
        if a < l {
            assert(ts[a].0 > ts[l].0);
        }
    }
}

/// Every funding flame is a flame of a set tier, with that tier's script pubkey.
#[verifier::spinoff_prover]
pub proof fn lemma_fund_set_tiers(c: Seq<Option<TierView>>, target: u64, current: u64)
    requires
        c.len() == 8,
        c[7] is None,
        flames_to_fund(c, target, current) is Some,
    ensures
        ({
            let fl = flames_to_fund(c, target, current)->Some_0;
            forall|x: int| 0 <= x < fl.len() ==> {
                let i = slot_of((#[trigger] fl[x]).tier);
                &&& 0 <= i < 7
                &&& c[i] is Some
                &&& fl[x].tier == slot_tier(i)
                &&& fl[x].spk == c[i]->Some_0.spk
            }
        }),
{
    let gap = (target - current) as u64;
    let fl = flames_to_fund(c, target, current)->Some_0;
    let ts = available_tiers(c, 7);
    lemma_fund_parts(c, target, current);
    lemma_available_tiers_from_slots(c, 7);
    lemma_greedy_members(ts, gap);
    let g = greedy(ts, gap).0;
    let lastf = FlameView { tier: ts.last().2, spk: ts.last().1 };
    let l = ts.len() - 1;
    assert(ts.last() == ts[l]);
    assert forall|x: int| 0 <= x < fl.len() implies {
        let i = slot_of((#[trigger] fl[x]).tier);
        &&& 0 <= i < 7
        &&& c[i] is Some
        &&& fl[x].tier == slot_tier(i)
        &&& fl[x].spk == c[i]->Some_0.spk
    } by {
        if x < g.len() {
            assert(fl[x] == g[x]);
            let a = choose|a: int| #![trigger ts[a]] 0 <= a < ts.len() && g[x].tier == ts[a].2 && g[x].spk == ts[a].1;
            assert(ts[a] == slot_entry(c, slot_of(ts[a].2)));
        } else {
            assert(fl[x] == lastf);
            assert(ts[l] == slot_entry(c, slot_of(ts[l].2)));
        }
    }
}

/// The funding flames come largest first.
#[verifier::spinoff_prover]
pub proof fn lemma_fund_sorted(c: Seq<Option<TierView>>, target: u64, current: u64)
    requires
        c.len() == 8,
        c[7] is None,
        flames_to_fund(c, target, current) is Some,
    ensures
        ({
            let fl = flames_to_fund(c, target, current)->Some_0;
            forall|x: int, y: int| 0 <= x < y < fl.len()
                ==> tier_amount((#[trigger] fl[x]).tier) >= tier_amount((#[trigger] fl[y]).tier)
        }),
{
    let gap = (target - current) as u64;
    let fl = flames_to_fund(c, target, current)->Some_0;
    let ts = available_tiers(c, 7);
    lemma_fund_parts(c, target, current);
    lemma_greedy_sorted(ts, gap);
    let g = greedy(ts, gap).0;
    let lastf = FlameView { tier: ts.last().2, spk: ts.last().1 };
    let l = ts.len() - 1;
    assert(ts.last() == ts[l]);
    assert forall|x: int, y: int| 0 <= x < y < fl.len() implies
        tier_amount((#[trigger] fl[x]).tier) >= tier_amount((#[trigger] fl[y]).tier) by {
        assert(fl[x] == g[x]);
        if y < g.len() {
            assert(fl[y] == g[y]);
        } else {
            assert(fl[y] == lastf);
            assert(tier_amount(lastf.tier) == ts[l].0);
        }
    }
}

/// The funding flames of one set tier are worth at most the value of one larger set tier.
#[verifier::rlimit(40)]
#[verifier::spinoff_prover]
pub proof fn lemma_fund_count_pair(c: Seq<Option<TierView>>, target: u64, current: u64, i: int, j: int)
    requires
        c.len() == 8,
        c[7] is None,
        flames_to_fund(c, target, current) is Some,
        0 <= i < 7,
        0 <= j < 7,
        c[i] is Some,
        c[j] is Some,
        tier_amount(slot_tier(i)) < tier_amount(slot_tier(j)),
    ensures
        tier_count(flames_to_fund(c, target, current)->Some_0, slot_tier(i)) * tier_amount(slot_tier(i))
            <= tier_amount(slot_tier(j)),
{
    let gap = (target - current) as u64;
    let fl = flames_to_fund(c, target, current)->Some_0;
    let ts = available_tiers(c, 7);
    lemma_fund_parts(c, target, current);
    lemma_available_tiers_complete(c, 7);
    lemma_available_tiers_ordered(c, 7);
    lemma_tiers_distinct(ts);
    lemma_greedy_counts(ts, gap);
    let g = greedy(ts, gap).0;
    let rem = greedy(ts, gap).1;
    let lastf = FlameView { tier: ts.last().2, spk: ts.last().1 };
    let l = ts.len() - 1;
    assert(ts.last() == ts[l]);
    assert(ts.contains(slot_entry(c, i)));
    assert(ts.contains(slot_entry(c, j)));
    let a = choose|a: int| 0 <= a < ts.len() && ts[a] == slot_entry(c, i);
    let b = choose|b: int| 0 <= b < ts.len() && ts[b] == slot_entry(c, j);
    assert(ts[a].0 == tier_amount(slot_tier(i)));
    assert(ts[b].0 == tier_amount(slot_tier(j)));
    if a < b {
        assert(ts[a].0 > ts[b].0);
    }
    assert(a != b);
    assert(b < a);
    assert(ts[a - 1].0 <= ts[b].0) by {
        if b < a - 1 {
            assert(ts[b].0 > ts[a - 1].0);
        }
    }
    let t = ts[a].2;
    assert(tier_count(g, t) * ts[a].0 < ts[a - 1].0);
    if rem > 0 {
        assert(g.push(lastf).drop_last() =~= g);
        if a == l {
            assert(tier_count(fl, t) == tier_count(g, t) + 1);
            assert(ts[a - 1].0 % ts[a].0 == 0);
            lemma_one_more_fits(tier_count(g, t) as int, ts[a].0 as int, ts[a - 1].0 as int);
        } else {
            assert(ts[a].2 != ts[l].2);
            assert(tier_count(fl, t) == tier_count(g, t));
        }
    }
}

/// The funding flames of a set tier are worth at most the value of any larger set tier.
pub proof fn lemma_fund_counts(c: Seq<Option<TierView>>, target: u64, current: u64)
    requires
        c.len() == 8,
        c[7] is None,
        flames_to_fund(c, target, current) is Some,
    ensures
        forall|i: int, j: int| #![trigger c[i], c[j]] 0 <= i < 7 && 0 <= j < 7 && c[i] is Some && c[j] is Some
            && tier_amount(slot_tier(i)) < tier_amount(slot_tier(j))
            ==> tier_count(flames_to_fund(c, target, current)->Some_0, slot_tier(i)) * tier_amount(slot_tier(i))
                <= tier_amount(slot_tier(j)),
{
    assert forall|i: int, j: int| #![trigger c[i], c[j]] 0 <= i < 7 && 0 <= j < 7 && c[i] is Some && c[j] is Some
        && tier_amount(slot_tier(i)) < tier_amount(slot_tier(j))
        implies tier_count(flames_to_fund(c, target, current)->Some_0, slot_tier(i)) * tier_amount(slot_tier(i))
            <= tier_amount(slot_tier(j)) by {
        lemma_fund_count_pair(c, target, current, i, j);
    }
}

/// Without the any-amount tier, the flames that fund a gap are chosen greedily, largest tier first,
/// and rounded up with the smallest set tier:
/// - they are worth at least the gap and less than the gap plus the value of any set tier;
/// - each is a flame of a set tier, with that tier's script pubkey;
/// - they come largest first;
/// - the flames of a tier are worth at most the value of any larger set tier, so no larger tier
///   that would fit is passed over.
pub proof fn law_flames_to_fund_greedy(c: Seq<Option<TierView>>, target: u64, current: u64)
    requires
        c.len() == 8,
        c[7] is None,
        flames_to_fund(c, target, current) is Some,
    ensures
        ({
            let fl = flames_to_fund(c, target, current)->Some_0;
            let gap = target - current;
            &&& gap <= flames_value(fl)
            &&& forall|i: int| 0 <= i < 7 && #[trigger] c[i] is Some ==> flames_value(fl) < gap + tier_amount(slot_tier(i))
            &&& forall|x: int| 0 <= x < fl.len() ==> {
                let i = slot_of((#[trigger] fl[x]).tier);
                &&& 0 <= i < 7
                &&& c[i] is Some
                &&& fl[x].tier == slot_tier(i)
                &&& fl[x].spk == c[i]->Some_0.spk
            }
            &&& forall|x: int, y: int| 0 <= x < y < fl.len()
                ==> tier_amount((#[trigger] fl[x]).tier) >= tier_amount((#[trigger] fl[y]).tier)
            &&& forall|i: int, j: int| #![trigger c[i], c[j]] 0 <= i < 7 && 0 <= j < 7 && c[i] is Some && c[j] is Some
                && tier_amount(slot_tier(i)) < tier_amount(slot_tier(j))
                ==> tier_count(fl, slot_tier(i)) * tier_amount(slot_tier(i)) <= tier_amount(slot_tier(j))
        }),
{
    law_flames_to_fund_cover_the_gap(c, target, current);
    lemma_fund_value_below(c, target, current);
    lemma_fund_set_tiers(c, target, current);
    lemma_fund_sorted(c, target, current);
    lemma_fund_counts(c, target, current);
}

/// Funding flames are found exactly when one of the first five tiers is set and the target is not
/// below the current value; with the any-amount tier set they are a single flame worth the gap, with
/// that tier's script pubkey.
pub proof fn law_flames_to_fund_when(c: Seq<Option<TierView>>, target: u64, current: u64)
    requires
        c.len() == 8,
    ensures
        flames_to_fund(c, target, current) is Some <==> (exists|i: int| 0 <= i < 5 && #[trigger] c[i] is Some) && current <= target,
        c[7] is Some && flames_to_fund(c, target, current) is Some ==> {
            let fl = flames_to_fund(c, target, current)->Some_0;
            &&& fl.len() == 1
            &&& fl[0].tier == FlameTier::TierAnyAmount((target - current) as u64)
            &&& fl[0].spk == c[7]->Some_0.spk
            &&& flames_value(fl) == target - current
        },
{
    if c[7] is Some && flames_to_fund(c, target, current) is Some {
        law_flames_to_fund_cover_the_gap(c, target, current);
    }
}

} // verus!
