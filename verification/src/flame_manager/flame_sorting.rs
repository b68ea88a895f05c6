use super::flame::{flame_encode, Flame, FlameView};
use super::flame_tier::tier_amount;
use crate::keymap::{key_views, Key, KeyMap};
use vstd::prelude::*;

verus! {

/// Strict lexicographic order on byte strings (a proper prefix comes first).
pub open spec fn lex_lt(a: Seq<u8>, b: Seq<u8>) -> bool
    decreases a.len(),
{
    if a.len() == 0 {
        b.len() > 0
    } else if b.len() == 0 {
        false
    } else if a[0] < b[0] {
        true
    } else if a[0] > b[0] {
        false
    } else {
        lex_lt(a.subrange(1, a.len() as int), b.subrange(1, b.len() as int))
    }
}

/// No byte string comes before itself.
pub proof fn lemma_lex_irrefl(a: Seq<u8>)
    ensures
        !lex_lt(a, a),
    decreases a.len(),
{
    if a.len() > 0 {
        lemma_lex_irrefl(a.subrange(1, a.len() as int));
    }
}

/// Two byte strings do not each come before the other.
pub proof fn lemma_lex_asym(a: Seq<u8>, b: Seq<u8>)
    ensures
        lex_lt(a, b) ==> !lex_lt(b, a),
    decreases a.len(),
{
    if a.len() > 0 && b.len() > 0 {
        lemma_lex_asym(a.subrange(1, a.len() as int), b.subrange(1, b.len() as int));
    }
}

/// Of two byte strings, one comes first or they are equal.
pub proof fn lemma_lex_total(a: Seq<u8>, b: Seq<u8>)
    ensures
        lex_lt(a, b) || a == b || lex_lt(b, a),
    decreases a.len(),
{
    if a.len() > 0 && b.len() > 0 {
        let ta = a.subrange(1, a.len() as int);
        let tb = b.subrange(1, b.len() as int);
        lemma_lex_total(ta, tb);
        if a[0] == b[0] && ta == tb {
            assert(a =~= seq![a[0]] + ta);
            assert(b =~= seq![b[0]] + tb);
        }
    } else if a.len() == 0 && b.len() == 0 {
        assert(a =~= b);
    }
}

/// The lexicographic order is transitive.
pub proof fn lemma_lex_trans(a: Seq<u8>, b: Seq<u8>, c: Seq<u8>)
    ensures
        lex_lt(a, b) && lex_lt(b, c) ==> lex_lt(a, c),
    decreases a.len(),
{
    if a.len() > 0 && b.len() > 0 && c.len() > 0 {
        lemma_lex_trans(a.subrange(1, a.len() as int), b.subrange(1, b.len() as int), c.subrange(1, c.len() as int));
    }
}

/// The lexicographic order is a strict total order.
pub proof fn lemma_lex_order(a: Seq<u8>, b: Seq<u8>, c: Seq<u8>)
    ensures
        !lex_lt(a, a),
        lex_lt(a, b) ==> !lex_lt(b, a),
        lex_lt(a, b) || a == b || lex_lt(b, a),
        lex_lt(a, b) && lex_lt(b, c) ==> lex_lt(a, c),
{
    lemma_lex_irrefl(a);
    lemma_lex_asym(a, b);
    lemma_lex_total(a, b);
    lemma_lex_trans(a, b, c);
}

/// Whether `a` comes strictly before `b` lexicographically.
pub fn bytes_lt(a: &[u8], b: &[u8]) -> (r: bool)
    ensures
        r == lex_lt(a@, b@),
{
    let mut i: usize = 0;
    proof {
        assert(a@.subrange(0, a@.len() as int) =~= a@);
        assert(b@.subrange(0, b@.len() as int) =~= b@);
    }
    while i < a.len() && i < b.len()
        invariant
            0 <= i <= a@.len(),
            i <= b@.len(),
            lex_lt(a@, b@) == lex_lt(a@.subrange(i as int, a@.len() as int), b@.subrange(i as int, b@.len() as int)),
        decreases a@.len() - i,
    {
        let ghost sa = a@.subrange(i as int, a@.len() as int);
        let ghost sb = b@.subrange(i as int, b@.len() as int);
        proof {
            assert(sa[0] == a@[i as int]);
            assert(sb[0] == b@[i as int]);
            assert(sa.subrange(1, sa.len() as int) =~= a@.subrange(i + 1, a@.len() as int));
            assert(sb.subrange(1, sb.len() as int) =~= b@.subrange(i + 1, b@.len() as int));
        }
        if a[i] < b[i] {
            return true;
        }
        if a[i] > b[i] {
            return false;
        }
        i = i + 1;
    }
    i < b.len()
}

/// Whether flame `a` may come before flame `b`: a higher value first, equal values in the
/// lexicographic order of their encodings.
pub open spec fn flame_before(a: FlameView, b: FlameView) -> bool {
    ||| tier_amount(a.tier) > tier_amount(b.tier)
    ||| tier_amount(a.tier) == tier_amount(b.tier) && !lex_lt(flame_encode(b), flame_encode(a))
}

/// The order of flames is total and transitive.
pub proof fn lemma_flame_before(a: FlameView, b: FlameView, c: FlameView)
    ensures
        flame_before(a, b) || flame_before(b, a),
        flame_before(a, b) && flame_before(b, c) ==> flame_before(a, c),
{
    let (ea, eb, ec) = (flame_encode(a), flame_encode(b), flame_encode(c));
    lemma_lex_order(ea, eb, ec);
    lemma_lex_order(eb, ea, ec);
    lemma_lex_order(ec, eb, ea);
    lemma_lex_order(ea, ec, eb);
    lemma_lex_order(eb, ec, ea);
    lemma_lex_order(ec, ea, eb);
}

/// Flames in the flame order.
pub open spec fn flames_sorted(s: Seq<FlameView>) -> bool {
    forall|i: int, j: int| 0 <= i < j < s.len() ==> flame_before(#[trigger] s[i], #[trigger] s[j])
}

/// The views of flames.
pub open spec fn views(s: Seq<Flame>) -> Seq<FlameView> {
    s.map_values(|f: Flame| f@)
}

/// Whether flame `a` may come before flame `b`.
fn flame_before_exec(a: &Flame, b: &Flame) -> (r: bool)
    ensures
        r == flame_before(a@, b@),
{
    let va = a.satoshi_amount();
    let vb = b.satoshi_amount();
    if va > vb {
        return true;
    }
    if va < vb {
        return false;
    }
    let ea = a.to_bytes();
    let eb = b.to_bytes();
    !bytes_lt(eb.as_slice(), ea.as_slice())
}

/// Inserts a flame into sorted flames at its place.
fn insert_sorted(out: &mut Vec<Flame>, x: Flame)
    requires
        flames_sorted(views(old(out)@)),
    ensures
        flames_sorted(views(final(out)@)),
        views(final(out)@).to_multiset() == views(old(out)@).to_multiset().insert(x@),
{
    let ghost s0 = views(out@);
    let ghost xv = x@;
    let n = out.len();
    let mut p: usize = 0;
    while p < n && flame_before_exec(&out[p], &x)
        invariant
            0 <= p <= n,
            n == out@.len(),
            s0 == views(out@),
            xv == x@,
            forall|j: int| 0 <= j < p ==> flame_before(#[trigger] s0[j], xv),
        decreases n - p,
    {
        p = p + 1;
    }
    proof {
        if p < n {
            assert(!flame_before(s0[p as int], xv));
            lemma_flame_before(s0[p as int], xv, xv);
        }
    }
    out.insert(p, x);
    proof {
        let s1 = views(out@);
        assert(s1 =~= s0.insert(p as int, xv));
        vstd::seq_lib::to_multiset_insert(s0, p as int, xv);
        assert forall|i: int, j: int| 0 <= i < j < s1.len() implies flame_before(#[trigger] s1[i], #[trigger] s1[j]) by {
            if j < p {
                assert(s1[i] == s0[i] && s1[j] == s0[j]);
            } else if j == p {
                assert(s1[i] == s0[i]);
            } else if i == p {
                assert(s1[j] == s0[j - 1]);
                if j - 1 > p {
                    assert(flame_before(s0[p as int], s0[j - 1]));
                    lemma_flame_before(xv, s0[p as int], s0[j - 1]);
                }
            } else if i < p {
                assert(s1[i] == s0[i] && s1[j] == s0[j - 1]);
            } else {
                assert(s1[i] == s0[i - 1] && s1[j] == s0[j - 1]);
            }
        }
    }
}

/// The flames in the flame order.
pub fn sort_account_flames(flames: &Vec<Flame>) -> (r: Vec<Flame>)
    ensures
        flames_sorted(views(r@)),
        views(r@).to_multiset() == views(flames@).to_multiset(),
{
    let mut out: Vec<Flame> = Vec::new();
    let n = flames.len();
    let mut i: usize = 0;
    proof {
        assert(views(flames@).subrange(0, 0) =~= Seq::<FlameView>::empty());
        assert(views(out@) =~= Seq::<FlameView>::empty());
    }
    while i < n
        invariant
            0 <= i <= n,
            n == flames@.len(),
            flames_sorted(views(out@)),
            views(out@).to_multiset() == views(flames@).subrange(0, i as int).to_multiset(),
        decreases n - i,
    {
        let f = flames[i].duplicate();
        proof {
            assert(views(flames@).subrange(0, i + 1) =~= views(flames@).subrange(0, i as int).push(f@));
            vstd::seq_lib::to_multiset_build(views(flames@).subrange(0, i as int), f@);
        }
        insert_sorted(&mut out, f);
        i = i + 1;
    }
    proof {
        assert(views(flames@).subrange(0, n as int) =~= views(flames@));
    }
    out
}

/// Keys in strictly increasing lexicographic order.
pub open spec fn keys_sorted(s: Seq<Key>) -> bool {
    forall|i: int, j: int| 0 <= i < j < s.len() ==> lex_lt(#[trigger] s[i]@, #[trigger] s[j]@)
}

/// Inserts a key that is not there yet into strictly sorted keys at its place.
fn insert_sorted_key(out: &mut Vec<Key>, k: Key)
    requires
        keys_sorted(old(out)@),
        !key_views(old(out)@).contains(k@),
    ensures
        keys_sorted(final(out)@),
        forall|x: Seq<u8>| key_views(final(out)@).contains(x) <==> key_views(old(out)@).contains(x) || x == k@,
        final(out)@.len() == old(out)@.len() + 1,
{
    let ghost s0 = out@;
    let n = out.len();
    let mut p: usize = 0;
    while p < n && bytes_lt(out[p].as_slice(), k.as_slice())
        invariant
            0 <= p <= n,
            n == out@.len(),
            s0 == out@,
            forall|j: int| 0 <= j < p ==> lex_lt(#[trigger] s0[j]@, k@),
        decreases n - p,
    {
        p = p + 1;
    }
    proof {
        if p < n {
            assert(!lex_lt(s0[p as int]@, k@));
            lemma_lex_order(s0[p as int]@, k@, k@);
            assert(key_views(s0)[p as int] == s0[p as int]@);
            assert(s0[p as int]@ != k@);
        }
    }
    out.insert(p, k);
    proof {
        let s1 = out@;
        assert forall|i: int, j: int| 0 <= i < j < s1.len() implies lex_lt(#[trigger] s1[i]@, #[trigger] s1[j]@) by {
            if j < p {
                assert(s1[i] == s0[i] && s1[j] == s0[j]);
            } else if j == p {
                assert(s1[i] == s0[i]);
            } else if i == p {
                assert(s1[j] == s0[j - 1]);
                if j - 1 > p {
                    assert(lex_lt(s0[p as int]@, s0[j - 1]@));
                    lemma_lex_order(k@, s0[p as int]@, s0[j - 1]@);
                }
            } else if i < p {
                assert(s1[i] == s0[i] && s1[j] == s0[j - 1]);
            } else {
                assert(s1[i] == s0[i - 1] && s1[j] == s0[j - 1]);
            }
        }
        assert forall|x: Seq<u8>| key_views(s1).contains(x) <==> key_views(s0).contains(x) || x == k@ by {
            if key_views(s1).contains(x) {
                let j = choose|j: int| 0 <= j < key_views(s1).len() && key_views(s1)[j] == x;
                if j < p {
                    assert(key_views(s0)[j] == x);
                } else if j > p {
                    assert(key_views(s0)[j - 1] == x);
                }
            }
            if key_views(s0).contains(x) {
                let j = choose|j: int| 0 <= j < key_views(s0).len() && key_views(s0)[j] == x;
                if j < p {
                    assert(key_views(s1)[j] == x);
                } else {
                    assert(key_views(s1)[j + 1] == x);
                }
            }
            if x == k@ {
                assert(key_views(s1)[p as int] == x);
            }
        }
    }
}

/// The total number of flames of the entries before `i`.
pub open spec fn flames_before(r: Seq<(Key, Vec<(u32, Flame)>)>, i: int) -> int
    decreases i,
{
    if i <= 0 {
        0
    } else {
        flames_before(r, i - 1) + r[i - 1].1@.len()
    }
}

/// The total number of flames of a map of accounts' flames, in the given key order.
pub open spec fn total_flames(m: Map<Seq<u8>, Vec<Flame>>, keys: Seq<Key>) -> int
    decreases keys.len(),
{
    if keys.len() == 0 {
        0
    } else {
        total_flames(m, keys.drop_last()) + m[keys.last()@]@.len()
    }
}

/// Sorts new flames: accounts in increasing lexicographic key order, each account's flames in the
/// flame order, numbered with consecutive indexes across all accounts from zero.
pub fn sort_flames(flames_to_sort: &KeyMap<Vec<Flame>>) -> (r: Vec<(Key, Vec<(u32, Flame)>)>)
    requires
        total_flames(flames_to_sort@, flames_to_sort.raw_keys()) <= u32::MAX,
    ensures
        r@.len() == flames_to_sort@.dom().len(),
        keys_sorted(r@.map_values(|e: (Key, Vec<(u32, Flame)>)| e.0)),
        forall|k: Seq<u8>| flames_to_sort@.dom().contains(k)
            <==> exists|i: int| 0 <= i < r@.len() && (#[trigger] r@[i]).0@ == k,
        forall|i: int| 0 <= i < r@.len() ==> {
            let fl = (#[trigger] r@[i]).1@.map_values(|e: (u32, Flame)| e.1);
            &&& flames_sorted(views(fl))
            &&& views(fl).to_multiset() == views(flames_to_sort@[r@[i].0@]@).to_multiset()
            &&& forall|j: int| 0 <= j < r@[i].1@.len() ==> (#[trigger] r@[i].1@[j]).0 == flames_before(r@, i) + j
        },
{
    let n = flames_to_sort.len();
    let mut keys: Vec<Key> = Vec::new();
    let mut i: usize = 0;
    while i < n
        invariant
            0 <= i <= n,
            n == flames_to_sort.key_seq().len(),
            flames_to_sort.key_seq().no_duplicates(),
            keys_sorted(keys@),
            keys@.len() == i,
            forall|x: Seq<u8>| key_views(keys@).contains(x) <==> flames_to_sort.key_seq().subrange(0, i as int).contains(x),
        decreases n - i,
    {
        let k = flames_to_sort.key_at(i);
        proof {
            let pre = flames_to_sort.key_seq().subrange(0, i as int);
            if key_views(keys@).contains(k@) {
                let j = choose|j: int| 0 <= j < pre.len() && pre[j] == k@;
                assert(flames_to_sort.key_seq()[j] == flames_to_sort.key_seq()[i as int]);
            }
        }
        insert_sorted_key(&mut keys, k);
        proof {
            let ks = flames_to_sort.key_seq();
            let pre0 = ks.subrange(0, i as int);
            let pre1 = ks.subrange(0, i + 1);
            assert forall|x: Seq<u8>| pre1.contains(x) <==> pre0.contains(x) || x == k@ by {
                if pre1.contains(x) {
                    let j = choose|j: int| 0 <= j < pre1.len() && pre1[j] == x;
                    if j < i {
                        assert(pre0[j] == x);
                    }
                }
                if pre0.contains(x) {
                    let j = choose|j: int| 0 <= j < pre0.len() && pre0[j] == x;
                    assert(pre1[j] == x);
                }
                if x == k@ {
                    assert(pre1[i as int] == x);
                }
            }
        }
        i = i + 1;
    }
    proof {
        assert(flames_to_sort.key_seq().subrange(0, n as int) =~= flames_to_sort.key_seq());
        lemma_keys_sorted_no_duplicates(keys@);
        lemma_total_flames_perm(flames_to_sort@, flames_to_sort.raw_keys(), keys@);
        assert(keys@.subrange(0, 0) =~= Seq::<Key>::empty());
    }
    let mut result: Vec<(Key, Vec<(u32, Flame)>)> = Vec::new();
    let mut index: u32 = 0;
    let mut a: usize = 0;
    while a < n
        invariant
            0 <= a <= n,
            n == keys@.len(),
            keys_sorted(keys@),
            forall|x: Seq<u8>| key_views(keys@).contains(x) <==> flames_to_sort@.dom().contains(x),
            total_flames(flames_to_sort@, keys@) <= u32::MAX,
            result@.len() == a,
            forall|j: int| 0 <= j < a ==> (#[trigger] result@[j]).0 == keys@[j],
            index == flames_before(result@, a as int),
            index == total_flames(flames_to_sort@, keys@.subrange(0, a as int)),
            forall|i: int| 0 <= i < result@.len() ==> {
                let fl = (#[trigger] result@[i]).1@.map_values(|e: (u32, Flame)| e.1);
                &&& flames_sorted(views(fl))
                &&& views(fl).to_multiset() == views(flames_to_sort@[result@[i].0@]@).to_multiset()
                &&& forall|j: int| 0 <= j < result@[i].1@.len() ==> (#[trigger] result@[i].1@[j]).0 == flames_before(result@, i) + j
            },
        decreases n - a,
    {
        let k = keys[a];
        proof {
            assert(key_views(keys@)[a as int] == k@);
            assert(key_views(keys@).contains(k@));
        }
        let src = match flames_to_sort.get(&k) {
            Some(v) => v,
            None => {
                return result;
            },
        };
        let sorted = sort_account_flames(src);
        proof {
            lemma_total_flames_prefix(flames_to_sort@, keys@, a + 1);
            lemma_total_flames_prefix_le(flames_to_sort@, keys@, a + 1);
            vstd::seq_lib::to_multiset_len(views(sorted@));
            vstd::seq_lib::to_multiset_len(views(src@));
        }
        let m = sorted.len();
        let mut numbered: Vec<(u32, Flame)> = Vec::new();
        let mut j: usize = 0;
        while j < m
            invariant
                0 <= j <= m,
                m == sorted@.len(),
                index + m <= u32::MAX,
                numbered@.len() == j,
                forall|t: int| 0 <= t < j ==> (#[trigger] numbered@[t]).0 == index + t,
                views(numbered@.map_values(|e: (u32, Flame)| e.1)) == views(sorted@).subrange(0, j as int),
            decreases m - j,
        {
            let f = sorted[j].duplicate();
            let ghost before = views(numbered@.map_values(|e: (u32, Flame)| e.1));
            let ghost fv = f@;
            numbered.push((index + j as u32, f));
            proof {
                assert(views(numbered@.map_values(|e: (u32, Flame)| e.1)) =~= before.push(fv));
                assert(views(sorted@).subrange(0, j + 1) =~= views(sorted@).subrange(0, j as int).push(fv));
            }
            j = j + 1;
        }
        let ghost r0 = result@;
        proof {
            assert(views(sorted@).subrange(0, m as int) =~= views(sorted@));
        }
        result.push((k, numbered));
        proof {
            lemma_flames_before_push(r0, (k, numbered), a as int);
            assert(result@ == r0.push((k, numbered)));
            assert forall|i: int| 0 <= i < result@.len() implies {
                let fl = (#[trigger] result@[i]).1@.map_values(|e: (u32, Flame)| e.1);
                &&& flames_sorted(views(fl))
                &&& views(fl).to_multiset() == views(flames_to_sort@[result@[i].0@]@).to_multiset()
                &&& forall|j: int| 0 <= j < result@[i].1@.len() ==> (#[trigger] result@[i].1@[j]).0 == flames_before(result@, i) + j
            } by {
                if i < a {
                    assert(result@[i] == r0[i]);
                    lemma_flames_before_push(r0, (k, numbered), i);
                }
            }
        }
        index = index + m as u32;
        a = a + 1;
    }
    proof {
        assert forall|x: Seq<u8>| flames_to_sort@.dom().contains(x)
            <==> exists|i: int| 0 <= i < result@.len() && (#[trigger] result@[i]).0@ == x by {
            if flames_to_sort@.dom().contains(x) {
                assert(key_views(keys@).contains(x));
                let i = choose|i: int| 0 <= i < key_views(keys@).len() && key_views(keys@)[i] == x;
                assert(result@[i].0@ == x);
            }
            if exists|i: int| 0 <= i < result@.len() && (#[trigger] result@[i]).0@ == x {
                let i = choose|i: int| 0 <= i < result@.len() && (#[trigger] result@[i]).0@ == x;
                assert(key_views(keys@)[i] == x);
            }
        }
        assert(result@.map_values(|e: (Key, Vec<(u32, Flame)>)| e.0) =~= keys@);
    }
    result
}

/// Strictly sorted keys are distinct.
pub proof fn lemma_keys_sorted_no_duplicates(keys: Seq<Key>)
    requires
        keys_sorted(keys),
    ensures
        key_views(keys).no_duplicates(),
{
    assert forall|i: int, j: int| 0 <= i < key_views(keys).len() && 0 <= j < key_views(keys).len() && i != j
        implies key_views(keys)[i] != key_views(keys)[j] by {
        lemma_lex_order(keys[i]@, keys[j]@, keys[j]@);
        lemma_lex_order(keys[j]@, keys[i]@, keys[i]@);
        if i < j {
            assert(lex_lt(keys[i]@, keys[j]@));
        } else {
            assert(lex_lt(keys[j]@, keys[i]@));
        }
    }
}

/// Pushing an entry leaves the counts of flames before the earlier entries as they were.
pub proof fn lemma_flames_before_push(r: Seq<(Key, Vec<(u32, Flame)>)>, e: (Key, Vec<(u32, Flame)>), i: int)
    requires
        0 <= i <= r.len(),
    ensures
        flames_before(r.push(e), i) == flames_before(r, i),
        flames_before(r.push(e), r.len() as int + 1) == flames_before(r, r.len() as int) + e.1@.len(),
    decreases i,
{
    if i > 0 {
        lemma_flames_before_push(r, e, i - 1);
    }
    lemma_flames_before_push_all(r, e, r.len() as int);
}

/// Helper for `lemma_flames_before_push`: the prefix counts agree up to the length before the push.
proof fn lemma_flames_before_push_all(r: Seq<(Key, Vec<(u32, Flame)>)>, e: (Key, Vec<(u32, Flame)>), i: int)
    requires
        0 <= i <= r.len(),
    ensures
        flames_before(r.push(e), i) == flames_before(r, i),
    decreases i,
{
    if i > 0 {
        lemma_flames_before_push_all(r, e, i - 1);
        assert(r.push(e)[i - 1] == r[i - 1]);
    }
}

/// The total over a prefix of keys.
pub proof fn lemma_total_flames_prefix(m: Map<Seq<u8>, Vec<Flame>>, keys: Seq<Key>, i: int)
    requires
        0 < i <= keys.len(),
    ensures
        total_flames(m, keys.subrange(0, i)) == total_flames(m, keys.subrange(0, i - 1)) + m[keys[i - 1]@]@.len(),
{
    assert(keys.subrange(0, i).drop_last() =~= keys.subrange(0, i - 1));
}

/// The total over a prefix of keys is at most the total over all of them.
pub proof fn lemma_total_flames_prefix_le(m: Map<Seq<u8>, Vec<Flame>>, keys: Seq<Key>, i: int)
    requires
        0 <= i <= keys.len(),
    ensures
        total_flames(m, keys.subrange(0, i)) <= total_flames(m, keys),
    decreases keys.len() - i,
{
    if i < keys.len() {
        lemma_total_flames_prefix_le(m, keys, i + 1);
        lemma_total_flames_prefix(m, keys, i + 1);
    } else {
        assert(keys.subrange(0, i) =~= keys);
    }
}

/// Removing a key from the sequence removes its flames from the total.
pub proof fn lemma_total_flames_remove(m: Map<Seq<u8>, Vec<Flame>>, s: Seq<Key>, p: int)
    requires
        0 <= p < s.len(),
    ensures
        total_flames(m, s) == total_flames(m, s.remove(p)) + m[s[p]@]@.len(),
    decreases s.len(),
{
    if p == s.len() - 1 {
        assert(s.remove(p) =~= s.drop_last());
    } else {
        lemma_total_flames_remove(m, s.drop_last(), p);
        assert(s.drop_last().remove(p) =~= s.remove(p).drop_last());
        assert(s.remove(p).last() == s.last());
    }
}

/// The total number of flames does not depend on the order of the (distinct) keys.
pub proof fn lemma_total_flames_perm(m: Map<Seq<u8>, Vec<Flame>>, a: Seq<Key>, b: Seq<Key>)
    requires
        key_views(a).no_duplicates(),
        key_views(b).no_duplicates(),
        forall|x: Seq<u8>| key_views(a).contains(x) <==> key_views(b).contains(x),
    ensures
        total_flames(m, a) == total_flames(m, b),
    decreases a.len(),
{
    if a.len() == 0 {
        if b.len() > 0 {
            assert(key_views(b).contains(b[0]@)) by {
                assert(key_views(b)[0] == b[0]@);
            }
        }
    } else {
        let k = a.last();
        assert(key_views(a)[a.len() - 1] == k@);
        assert(key_views(b).contains(k@));
        let p = choose|p: int| 0 <= p < key_views(b).len() && key_views(b)[p] == k@;
        let a2 = a.drop_last();
        let b2 = b.remove(p);
        assert(key_views(a2) =~= key_views(a).drop_last());
        assert(key_views(b2) =~= key_views(b).remove(p));
        assert forall|x: Seq<u8>| key_views(a2).contains(x) <==> key_views(b2).contains(x) by {
            if key_views(a2).contains(x) {
                let i = choose|i: int| 0 <= i < key_views(a2).len() && key_views(a2)[i] == x;
                assert(key_views(a).contains(x));
                assert(x != k@) by {
                    assert(key_views(a)[i] == x);
                }
                let j = choose|j: int| 0 <= j < key_views(b).len() && key_views(b)[j] == x;
                if j < p {
                    assert(key_views(b2)[j] == x);
                } else {
                    assert(j != p);
                    assert(key_views(b2)[j - 1] == x);
                }
            }
            if key_views(b2).contains(x) {
                let j = choose|j: int| 0 <= j < key_views(b2).len() && key_views(b2)[j] == x;
                let jj = if j < p { j } else { j + 1 };
                assert(key_views(b)[jj] == x);
                assert(x != k@);
                assert(key_views(a).contains(x));
                let i = choose|i: int| 0 <= i < key_views(a).len() && key_views(a)[i] == x;
                assert(i != a.len() - 1);
                assert(key_views(a2)[i] == x);
            }
        }
        lemma_total_flames_perm(m, a2, b2);
        lemma_total_flames_remove(m, b, p);
    }
}

} // verus!
