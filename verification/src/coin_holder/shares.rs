use super::bodies::{ShadowSpace, ShadowSpaceView, SATI_SATOSHIS_PER_SATOSHI};
use crate::keymap::{key_views, lemma_push_contains, Key};
use vstd::prelude::*;

verus! {

/// The part of a proportional change of `amount` satoshis over a space whose allocs sum is `sum`
/// satoshis that falls to an allocation of `v` sati-satoshis, rounded down, in sati-satoshis.
pub open spec fn share(v: u128, amount: u64, sum: u64) -> int {
    (v * (amount * 100_000_000)) / (sum * 100_000_000)
}

/// An allocation after its share of a proportional increase (`up`) or decrease is applied.
pub open spec fn shared_value(v: u128, amount: u64, sum: u64, up: bool) -> u128 {
    if up {
        (v + share(v, amount, sum)) as u128
    } else {
        (v - share(v, amount, sum)) as u128
    }
}

/// Every allocation after its share of a proportional change is applied.
pub open spec fn spread(allocs: Map<Seq<u8>, u128>, amount: u64, sum: u64, up: bool) -> Map<Seq<u8>, u128> {
    Map::new(|a: Seq<u8>| allocs.dom().contains(a), |a: Seq<u8>| shared_value(allocs[a], amount, sum, up))
}

/// The accounts whose allocation a proportional change moves: those with a positive share.
pub open spec fn moved(allocs: Map<Seq<u8>, u128>, amount: u64, sum: u64) -> Set<Seq<u8>> {
    allocs.dom().filter(|a: Seq<u8>| share(allocs[a], amount, sum) > 0)
}

/// The accounts with a positive share and their shares, in the given order.
pub open spec fn positive_shares(keys: Seq<Key>, allocs: Map<Seq<u8>, u128>, amount: u64, sum: u64) -> Seq<(Key, u128)>
    decreases keys.len(),
{
    if keys.len() == 0 {
        Seq::empty()
    } else {
        let prev = positive_shares(keys.drop_last(), allocs, amount, sum);
        let k = keys.last();
        if share(allocs[k@], amount, sum) > 0 {
            prev.push((k, share(allocs[k@], amount, sum) as u128))
        } else {
            prev
        }
    }
}

/// The arithmetic of a proportional change stays in range for every allocation.
pub open spec fn shares_computable(allocs: Map<Seq<u8>, u128>, amount: u64, sum: u64, up: bool) -> bool {
    forall|a: Seq<u8>| #[trigger] allocs.dom().contains(a) ==> {
        &&& allocs[a] * (amount * 100_000_000) <= u128::MAX
        &&& up ==> allocs[a] + share(allocs[a], amount, sum) <= u128::MAX
    }
}

/// A decrease no larger than the allocs sum takes no allocation below zero.
pub proof fn lemma_share_at_most_value(v: u128, amount: u64, sum: u64)
    requires
        0 < sum,
        amount <= sum,
    ensures
        0 <= share(v, amount, sum) <= v,
{
    let d = amount * 100_000_000;
    let s = sum * 100_000_000;
    assert(0 <= v * d <= v * s) by (nonlinear_arith)
        requires
            0 <= d <= s,
            0 <= v,
    ;
    assert((v * d) / s <= (v * s) / s) by (nonlinear_arith)
        requires
            0 <= v * d <= v * s,
            s > 0,
    ;
    assert((v * s) / s == v) by (nonlinear_arith)
        requires
            s > 0,
    ;
    assert(0 <= (v * d) / s) by (nonlinear_arith)
        requires
            0 <= v * d,
            s > 0,
    ;
}

/// The listed accounts are distinct.
pub open spec fn distinct_keys(list: Seq<(Key, u128)>) -> bool {
    forall|i: int, j: int| 0 <= i < j < list.len() ==> list[i].0@ != list[j].0@
}

/// The accounts moved by a proportional change are listed each once, with their shares.
pub proof fn lemma_positive_shares(keys: Seq<Key>, allocs: Map<Seq<u8>, u128>, amount: u64, sum: u64)
    requires
        key_views(keys).no_duplicates(),
    ensures
        distinct_keys(positive_shares(keys, allocs, amount, sum)),
        forall|i: int| 0 <= i < positive_shares(keys, allocs, amount, sum).len() ==> {
            let (k, v) = #[trigger] positive_shares(keys, allocs, amount, sum)[i];
            &&& key_views(keys).contains(k@)
            &&& v == share(allocs[k@], amount, sum) as u128
            &&& share(allocs[k@], amount, sum) > 0
        },
    decreases keys.len(),
{
    if keys.len() > 0 {
        let ks = keys.drop_last();
        assert(key_views(ks) =~= key_views(keys).drop_last());
        lemma_positive_shares(ks, allocs, amount, sum);
        let prev = positive_shares(ks, allocs, amount, sum);
        let k = keys.last();
        assert(key_views(keys) =~= key_views(ks).push(k@));
        assert(!key_views(ks).contains(k@)) by {
            if key_views(ks).contains(k@) {
                let j = choose|j: int| 0 <= j < key_views(ks).len() && key_views(ks)[j] == k@;
                assert(key_views(keys)[j] == key_views(keys)[keys.len() - 1]);
            }
        }
        assert forall|x: Seq<u8>| key_views(ks).contains(x) implies key_views(keys).contains(x) by {
            let j = choose|j: int| 0 <= j < key_views(ks).len() && key_views(ks)[j] == x;
            assert(key_views(keys)[j] == x);
        }
        assert(key_views(keys)[keys.len() - 1] == k@);
    }
}

/// The listed accounts are moved by the change, each once, with its share.
pub open spec fn shares_listed(list: Seq<(Key, u128)>, allocs: Map<Seq<u8>, u128>, amount: u64, sum: u64) -> bool {
    &&& distinct_keys(list)
    &&& forall|i: int| 0 <= i < list.len() ==> {
        let (k, v) = #[trigger] list[i];
        &&& allocs.dom().contains(k@)
        &&& v == share(allocs[k@], amount, sum)
        &&& share(allocs[k@], amount, sum) > 0
    }
}

/// Applies a proportional change to a copy of a shadow space's allocations (its allocs sum is left
/// as it is) and lists the accounts moved with their shares, in allocation order.
pub fn spread_shares(sp: &ShadowSpace, amount: u64, up: bool) -> (r: (ShadowSpace, Vec<(Key, u128)>))
    requires
        sp@.allocs_sum > 0,
        !up ==> amount <= sp@.allocs_sum,
        shares_computable(sp@.allocs, amount, sp@.allocs_sum, up),
    ensures
        r.0@ == (ShadowSpaceView { allocs: spread(sp@.allocs, amount, sp@.allocs_sum, up), ..sp@ }),
        r.0.alloc_keys() == sp.alloc_keys(),
        r.1@ == positive_shares(sp.alloc_keys(), sp@.allocs, amount, sp@.allocs_sum),
        r.1@.len() == moved(sp@.allocs, amount, sp@.allocs_sum).len(),
        shares_listed(r.1@, sp@.allocs, amount, sp@.allocs_sum),
{
    let sum = sp.allocs_sum();
    let allocs = sp.allocs();
    let ghost keys = sp.alloc_keys();
    let ghost m = sp@.allocs;
    let amount_sati: u128 = (amount as u128) * SATI_SATOSHIS_PER_SATOSHI;
    let sum_sati: u128 = (sum as u128) * SATI_SATOSHIS_PER_SATOSHI;
    let mut out = sp.duplicate();
    let mut list: Vec<(Key, u128)> = Vec::new();
    let ghost mut counted: Set<Seq<u8>> = Set::empty();
    let n = allocs.len();
    let mut i: usize = 0;
    while i < n
        invariant
            0 <= i <= n,
            n == allocs.key_seq().len(),
            allocs.key_seq().no_duplicates(),
            forall|x: Seq<u8>| allocs@.dom().contains(x) <==> allocs.key_seq().contains(x),
            allocs@ == m,
            allocs.raw_keys() == keys,
            m == sp@.allocs,
            keys == sp.alloc_keys(),
            sum == sp@.allocs_sum,
            sum > 0,
            !up ==> amount <= sum,
            amount_sati == amount * 100_000_000,
            sum_sati == sum * 100_000_000,
            shares_computable(m, amount, sum, up),
            out.alloc_keys() == keys,
            out@.allocs_sum == sum,
            out@.allocs.dom() == m.dom(),
            forall|x: Seq<u8>| #[trigger] out@.allocs.dom().contains(x) ==> out@.allocs[x] == if allocs.key_seq().subrange(0, i as int).contains(x) {
                shared_value(m[x], amount, sum, up)
            } else {
                m[x]
            },
            list@ == positive_shares(keys.subrange(0, i as int), m, amount, sum),
            counted.finite(),
            list@.len() == counted.len(),
            forall|x: Seq<u8>| counted.contains(x) <==> allocs.key_seq().subrange(0, i as int).contains(x) && share(m[x], amount, sum) > 0,
        decreases n - i,
    {
        let a = allocs.key_at(i);
        let v = *allocs.value_at(i);
        proof {
            assert(m.dom().contains(a@));
            if !up {
                lemma_share_at_most_value(v, amount, sum);
            }
            assert(v * amount_sati <= u128::MAX);
            assert(sum_sati > 0) by (nonlinear_arith)
                requires
                    sum > 0,
                    sum_sati == sum * 100_000_000,
            ;
            assert(allocs.key_seq().subrange(0, i + 1) =~= allocs.key_seq().subrange(0, i as int).push(a@));
            assert(keys.subrange(0, i + 1).drop_last() =~= keys.subrange(0, i as int));
            lemma_push_contains(allocs.key_seq().subrange(0, i as int), a@);
            if allocs.key_seq().subrange(0, i as int).contains(a@) {
                let j = choose|j: int| 0 <= j < i && allocs.key_seq().subrange(0, i as int)[j] == a@;
                assert(allocs.key_seq()[j] == allocs.key_seq()[i as int]);
            }
        }
        let s: u128 = (v * amount_sati) / sum_sati;
        if s > 0 {
            let nv: u128 = if up {
                v + s
            } else {
                v - s
            };
            out.insert_alloc(a, nv);
            list.push((a, s));
            proof {
                counted = counted.insert(a@);
            }
        }
        proof {
            assert(s == share(v, amount, sum));
        }
        i = i + 1;
    }
    proof {
        assert(allocs.key_seq().subrange(0, n as int) =~= allocs.key_seq());
        assert(keys.subrange(0, n as int) =~= keys);
        assert(counted =~= moved(m, amount, sum));
        assert(out@.allocs =~= spread(m, amount, sum, up));
        lemma_positive_shares(keys, m, amount, sum);
        assert forall|x: Seq<u8>| key_views(keys).contains(x) implies m.dom().contains(x) by {}
    }
    (out, list)
}

} // verus!
