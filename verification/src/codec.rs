use vstd::prelude::*;

verus! {

/// 256 raised to the power `n`.
pub open spec fn pow256(n: nat) -> nat
    decreases n,
{
    if n == 0 {
        1
    } else {
        256 * pow256((n - 1) as nat)
    }
}

/// The number that a little-endian byte string denotes.
pub open spec fn le_value(s: Seq<u8>) -> nat
    decreases s.len(),
{
    if s.len() == 0 {
        0
    } else {
        s[0] as nat + 256 * le_value(s.drop_first())
    }
}

/// The `n` low-order bytes of `v`, least significant first.
pub open spec fn le_encode(v: nat, n: nat) -> Seq<u8>
    decreases n,
{
    if n == 0 {
        Seq::empty()
    } else {
        seq![(v % 256) as u8] + le_encode(v / 256, (n - 1) as nat)
    }
}

pub proof fn lemma_le_encode_len(v: nat, n: nat)
    ensures
        le_encode(v, n).len() == n,
    decreases n,
{
    if n > 0 {
        lemma_le_encode_len(v / 256, (n - 1) as nat);
    }
}

pub proof fn lemma_le_value_bound(s: Seq<u8>)
    ensures
        le_value(s) < pow256(s.len()),
    decreases s.len(),
{
    if s.len() > 0 {
        lemma_le_value_bound(s.drop_first());
        let r = le_value(s.drop_first());
        let p = pow256(s.drop_first().len());
        assert(r + 1 <= p);
        assert(s[0] as nat + 256 * r < 256 * p) by (nonlinear_arith)
            requires
                s[0] < 256,
                r + 1 <= p,
        ;
    }
}

/// Decoding an encoding gives back the number, when it fits in the bytes.
pub proof fn lemma_le_round_trip(v: nat, n: nat)
    requires
        v < pow256(n),
    ensures
        le_value(le_encode(v, n)) == v,
    decreases n,
{
    if n > 0 {
        let q = v / 256;
        let p = pow256((n - 1) as nat);
        assert(q < p) by (nonlinear_arith)
            requires
                v < 256 * p,
                q == v / 256,
        ;
        lemma_le_round_trip(q, (n - 1) as nat);
        let e = le_encode(v, n);
        assert(e.drop_first() =~= le_encode(q, (n - 1) as nat));
        assert(v == (v % 256) + 256 * q);
    }
}

/// Encoding a decoded byte string gives back the bytes.
pub proof fn lemma_le_encode_of_value(s: Seq<u8>)
    ensures
        le_encode(le_value(s), s.len()) == s,
    decreases s.len(),
{
    if s.len() > 0 {
        let r = le_value(s.drop_first());
        vstd::arithmetic::div_mod::lemma_fundamental_div_mod_converse(
            le_value(s) as int,
            256,
            r as int,
            s[0] as int,
        );
        lemma_le_encode_of_value(s.drop_first());
        assert(le_encode(le_value(s), s.len()) =~= s);
    }
}

pub proof fn lemma_pow256_values()
    ensures
        pow256(1) == 256,
        pow256(2) == 0x1_0000,
        pow256(4) == 0x1_0000_0000,
        pow256(8) == 0x1_0000_0000_0000_0000,
        pow256(16) == 0x1_0000_0000_0000_0000_0000_0000_0000_0000,
{
    reveal_with_fuel(pow256, 17);
}

/// The `n` low-order bytes of a number, least significant first.
fn encode_le(v: u128, n: usize) -> (r: Vec<u8>)
    ensures
        r@ == le_encode(v as nat, n as nat),
{
    let mut out: Vec<u8> = Vec::new();
    let mut x: u128 = v;
    let mut i: usize = 0;
    while i < n
        invariant
            0 <= i <= n,
            out@ + le_encode(x as nat, (n - i) as nat) == le_encode(v as nat, n as nat),
        decreases n - i,
    {
        let b = (x % 256) as u8;
        proof {
            let rest = le_encode((x / 256) as nat, (n - i - 1) as nat);
            assert(le_encode(x as nat, (n - i) as nat) == seq![b] + rest);
            assert(out@.push(b) + rest =~= out@ + (seq![b] + rest));
        }
        out.push(b);
        x = x / 256;
        i = i + 1;
    }
    assert(le_encode(x as nat, 0) =~= Seq::<u8>::empty());
    assert(out@ + Seq::<u8>::empty() =~= out@);
    out
}

/// The number denoted by a little-endian byte string of at most 16 bytes.
fn decode_le(s: &[u8]) -> (r: u128)
    requires
        s@.len() <= 16,
    ensures
        r == le_value(s@),
{
    let mut acc: u128 = 0;
    let mut i: usize = s.len();
    while i > 0
        invariant
            0 <= i <= s@.len() <= 16,
            acc == le_value(s@.subrange(i as int, s@.len() as int)),
        decreases i,
    {
        let ghost tail = s@.subrange(i as int, s@.len() as int);
        let ghost tail2 = s@.subrange(i - 1, s@.len() as int);
        proof {
            assert(tail2.drop_first() =~= tail);
            lemma_le_value_bound(tail2);
            lemma_pow256_values();
            lemma_pow256_mono(tail2.len(), 16);
        }
        acc = acc * 256 + s[i - 1] as u128;
        i = i - 1;
    }
    assert(s@.subrange(0, s@.len() as int) =~= s@);
    acc
}

proof fn lemma_pow256_mono(a: nat, b: nat)
    requires
        a <= b,
    ensures
        pow256(a) <= pow256(b),
    decreases b,
{
    if a < b {
        lemma_pow256_mono(a, (b - 1) as nat);
    }
}

/// Little-endian bytes of a `u64`.
pub fn u64_to_le_bytes(v: u64) -> (r: Vec<u8>)
    ensures
        r@ == le_encode(v as nat, 8),
        r@.len() == 8,
        le_value(r@) == v,
{
    proof {
        lemma_le_encode_len(v as nat, 8);
        lemma_pow256_values();
        lemma_le_round_trip(v as nat, 8);
    }
    encode_le(v as u128, 8)
}

/// Little-endian bytes of a `u128`.
pub fn u128_to_le_bytes(v: u128) -> (r: Vec<u8>)
    ensures
        r@ == le_encode(v as nat, 16),
        r@.len() == 16,
        le_value(r@) == v,
{
    proof {
        lemma_le_encode_len(v as nat, 16);
        lemma_pow256_values();
        lemma_le_round_trip(v as nat, 16);
    }
    encode_le(v, 16)
}

/// Little-endian bytes of a `u32`.
pub fn u32_to_le_bytes(v: u32) -> (r: Vec<u8>)
    ensures
        r@ == le_encode(v as nat, 4),
        r@.len() == 4,
        le_value(r@) == v,
{
    proof {
        lemma_le_encode_len(v as nat, 4);
        lemma_pow256_values();
        lemma_le_round_trip(v as nat, 4);
    }
    encode_le(v as u128, 4)
}

/// Little-endian bytes of a `u16`.
pub fn u16_to_le_bytes(v: u16) -> (r: Vec<u8>)
    ensures
        r@ == le_encode(v as nat, 2),
        r@.len() == 2,
        le_value(r@) == v,
{
    proof {
        lemma_le_encode_len(v as nat, 2);
        lemma_pow256_values();
        lemma_le_round_trip(v as nat, 2);
    }
    encode_le(v as u128, 2)
}

/// A `u64` from exactly eight little-endian bytes.
pub fn u64_from_le_bytes(s: &[u8]) -> (r: Option<u64>)
    ensures
        match r {
            Some(v) => s@.len() == 8 && v == le_value(s@),
            None => s@.len() != 8,
        },
{
    if s.len() != 8 {
        return None;
    }
    let v = decode_le(s);
    proof {
        lemma_le_value_bound(s@);
        lemma_pow256_values();
    }
    Some(v as u64)
}

/// A `u128` from exactly sixteen little-endian bytes.
pub fn u128_from_le_bytes(s: &[u8]) -> (r: Option<u128>)
    ensures
        match r {
            Some(v) => s@.len() == 16 && v == le_value(s@),
            None => s@.len() != 16,
        },
{
    if s.len() != 16 {
        return None;
    }
    Some(decode_le(s))
}

/// A `u16` from exactly two little-endian bytes.
pub fn u16_from_le_bytes(s: &[u8]) -> (r: Option<u16>)
    ensures
        match r {
            Some(v) => s@.len() == 2 && v == le_value(s@),
            None => s@.len() != 2,
        },
{
    if s.len() != 2 {
        return None;
    }
    let v = decode_le(s);
    proof {
        lemma_le_value_bound(s@);
        lemma_pow256_values();
    }
    Some(v as u16)
}

/// A `u32` from exactly four little-endian bytes.
pub fn u32_from_le_bytes(s: &[u8]) -> (r: Option<u32>)
    ensures
        match r {
            Some(v) => s@.len() == 4 && v == le_value(s@),
            None => s@.len() != 4,
        },
{
    if s.len() != 4 {
        return None;
    }
    let v = decode_le(s);
    proof {
        lemma_le_value_bound(s@);
        lemma_pow256_values();
    }
    Some(v as u32)
}

/// A copy of a byte string.
pub fn bytes_copy(v: &[u8]) -> (r: Vec<u8>)
    ensures
        r@ == v@,
{
    let mut r: Vec<u8> = Vec::new();
    let n = v.len();
    let mut i: usize = 0;
    while i < n
        invariant
            0 <= i <= n,
            n == v@.len(),
            r@ == v@.subrange(0, i as int),
        decreases n - i,
    {
        r.push(v[i]);
        proof {
            assert(r@ =~= v@.subrange(0, i + 1));
        }
        i = i + 1;
    }
    proof {
        assert(v@.subrange(0, n as int) =~= v@);
    }
    r
}

/// A 32-byte array from exactly 32 bytes.
pub fn bytes_to_array32(v: &[u8]) -> (r: Option<[u8; 32]>)
    ensures
        match r {
            Some(k) => v@.len() == 32 && k@ == v@,
            None => v@.len() != 32,
        },
{
    if v.len() != 32 {
        return None;
    }
    let mut k: [u8; 32] = [0u8; 32];
    let mut i: usize = 0;
    while i < 32
        invariant
            0 <= i <= 32,
            v@.len() == 32,
            k@.len() == 32,
            forall|j: int| 0 <= j < i ==> k@[j] == v@[j],
        decreases 32 - i,
    {
        k[i] = v[i];
        i = i + 1;
    }
    proof {
        assert(k@ =~= v@);
    }
    Some(k)
}

} // verus!
