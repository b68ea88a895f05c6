use super::flame::{flame_decode, flame_encode, law_flame_round_trip, lemma_flame_encode_len, Flame, FlameView};
use crate::codec::{
    le_encode, le_value, lemma_le_encode_len, lemma_le_round_trip, lemma_pow256_values, u16_from_le_bytes,
    u16_to_le_bytes, u32_from_le_bytes, u32_to_le_bytes, u64_from_le_bytes, u64_to_le_bytes,
};
use vstd::prelude::*;

verus! {

/// The flames of an account, each with the rollup height it is projected at.
#[derive(Debug)]
pub struct FMAccountFlameSet {
    pub flames: Vec<(Flame, u64)>,
}

/// The abstract content of flames with their heights.
pub open spec fn flames_view(s: Seq<(Flame, u64)>) -> Seq<(FlameView, u64)> {
    s.map_values(|e: (Flame, u64)| (e.0@, e.1))
}

/// The encoding of one flame with its height: the flame encoding's length in two little-endian
/// bytes (modulo 2^16), the flame encoding, then the height in eight little-endian bytes.
pub open spec fn entry_encode(e: (FlameView, u64)) -> Seq<u8> {
    le_encode(flame_encode(e.0).len() % 0x1_0000, 2) + flame_encode(e.0) + le_encode(e.1 as nat, 8)
}

/// The encodings of flames with their heights, one after the other.
pub open spec fn entries_encode(s: Seq<(FlameView, u64)>) -> Seq<u8>
    decreases s.len(),
{
    if s.len() == 0 {
        Seq::empty()
    } else {
        entry_encode(s[0]) + entries_encode(s.subrange(1, s.len() as int))
    }
}

/// The encoding of a flame set: the number of flames in four little-endian bytes (modulo 2^32), then
/// each flame with its height.
pub open spec fn flame_set_encode(s: Seq<(FlameView, u64)>) -> Seq<u8> {
    le_encode(s.len() % 0x1_0000_0000, 4) + entries_encode(s)
}

/// `n` flames with their heights decoded from the start of bytes, if there are; bytes after them
/// are ignored.
pub open spec fn entries_decode(b: Seq<u8>, n: nat) -> Option<Seq<(FlameView, u64)>>
    decreases n,
{
    if n == 0 {
        Some(Seq::empty())
    } else if b.len() < 2 {
        None
    } else {
        let fl = le_value(b.subrange(0, 2)) as int;
        if b.len() < 2 + fl {
            None
        } else {
            match flame_decode(b.subrange(2, 2 + fl)) {
                None => None,
                Some(f) => {
                    let r = b.subrange(2 + fl, b.len() as int);
                    if r.len() < 8 {
                        None
                    } else {
                        match entries_decode(r.subrange(8, r.len() as int), (n - 1) as nat) {
                            None => None,
                            Some(rest) => Some(seq![(f, le_value(r.subrange(0, 8)) as u64)] + rest),
                        }
                    }
                },
            }
        }
    }
}

/// The flame set that bytes start with, if any.
pub open spec fn flame_set_decode(b: Seq<u8>) -> Option<Seq<(FlameView, u64)>> {
    if b.len() < 4 {
        None
    } else {
        entries_decode(b.subrange(4, b.len() as int), le_value(b.subrange(0, 4)))
    }
}

/// The encodings of one more flame extend the encodings of the flames before it.
pub proof fn lemma_entries_encode_push(s: Seq<(FlameView, u64)>, e: (FlameView, u64))
    ensures
        entries_encode(s.push(e)) == entries_encode(s) + entry_encode(e),
    decreases s.len(),
{
    if s.len() == 0 {
        assert(s.push(e).subrange(1, 1) =~= Seq::<(FlameView, u64)>::empty());
        assert(entries_encode(s.push(e).subrange(1, 1)) == Seq::<u8>::empty());
        assert(s.push(e)[0] == e);
        assert(entries_encode(s.push(e)) =~= entry_encode(e) + Seq::<u8>::empty());
        assert(entries_encode(s) == Seq::<u8>::empty());
    } else {
        let t = s.subrange(1, s.len() as int);
        lemma_entries_encode_push(t, e);
        assert(s.push(e).subrange(1, s.len() as int + 1) =~= t.push(e));
        assert(entries_encode(s.push(e)) =~= entries_encode(s) + entry_encode(e));
    }
}

/// Decoding, from the start of bytes, as many flames as follow gives the prefix of flames decoded so
/// far followed by the rest.
pub open spec fn prepend_decoded(
    acc: Seq<(FlameView, u64)>,
    rest: Option<Seq<(FlameView, u64)>>,
) -> Option<Seq<(FlameView, u64)>> {
    match rest {
        None => None,
        Some(r) => Some(acc + r),
    }
}

impl FMAccountFlameSet {
    /// Constructs a flame set.
    pub fn new(flames: Vec<(Flame, u64)>) -> (r: Self)
        ensures
            flames_view(r.flames@) == flames_view(flames@),
    {
        FMAccountFlameSet { flames }
    }

    /// Serializes the flame set.
    pub fn to_bytes(&self) -> (r: Vec<u8>)
        ensures
            r@ == flame_set_encode(flames_view(self.flames@)),
    {
        let ghost s = flames_view(self.flames@);
        let n = self.flames.len();
        let mut bytes = u32_to_le_bytes(((n as u64) % 0x1_0000_0000) as u32);
        let ghost head = bytes@;
        let mut i: usize = 0;
        while i < n
            invariant
                0 <= i <= n,
                n == self.flames@.len(),
                s == flames_view(self.flames@),
                head == le_encode(n as nat % 0x1_0000_0000, 4),
                bytes@ == head + entries_encode(s.subrange(0, i as int)),
            decreases n - i,
        {
            let fb = self.flames[i].0.to_bytes();
            let len: u16 = (fb.len() % 0x1_0000) as u16;
            let mut lb = u16_to_le_bytes(len);
            let mut fbm = fb;
            let mut hb = u64_to_le_bytes(self.flames[i].1);
            proof {
                lemma_entries_encode_push(s.subrange(0, i as int), s[i as int]);
                assert(s.subrange(0, i as int).push(s[i as int]) =~= s.subrange(0, i + 1));
            }
            bytes.append(&mut lb);
            bytes.append(&mut fbm);
            bytes.append(&mut hb);
            proof {
                assert(bytes@ =~= head + entries_encode(s.subrange(0, i + 1)));
            }
            i = i + 1;
        }
        proof {
            assert(s.subrange(0, n as int) =~= s);
        }
        bytes
    }

    /// Deserializes a flame set from the start of bytes.
    pub fn from_bytes(bytes: &[u8]) -> (r: Option<FMAccountFlameSet>)
        ensures
            match r {
                Some(fs) => flame_set_decode(bytes@) == Some(flames_view(fs.flames@)),
                None => flame_set_decode(bytes@) is None,
            },
    {
        if bytes.len() < 4 {
            return None;
        }
        let n = match u32_from_le_bytes(vstd::slice::slice_subrange(bytes, 0, 4)) {
            Some(v) => v,
            None => return None,
        };
        let ghost b4 = bytes@.subrange(4, bytes@.len() as int);
        let mut flames: Vec<(Flame, u64)> = Vec::new();
        let mut cursor: usize = 4;
        let mut i: u32 = 0;
        while i < n
            invariant
                0 <= i <= n,
                4 <= cursor <= bytes@.len(),
                b4 == bytes@.subrange(4, bytes@.len() as int),
                n == le_value(bytes@.subrange(0, 4)),
                entries_decode(b4, n as nat) == prepend_decoded(
                    flames_view(flames@),
                    entries_decode(bytes@.subrange(cursor as int, bytes@.len() as int), (n - i) as nat),
                ),
            decreases n - i,
        {
            let cur = vstd::slice::slice_subrange(bytes, cursor, bytes.len());
            proof {
                assert(flames_view(flames@) + Seq::<(FlameView, u64)>::empty() =~= flames_view(flames@));
            }
            if cur.len() < 2 {
                return None;
            }
            let fl = match u16_from_le_bytes(vstd::slice::slice_subrange(cur, 0, 2)) {
                Some(v) => v as usize,
                None => return None,
            };
            if cur.len() < 2 + fl {
                return None;
            }
            let flame = match Flame::from_bytes(vstd::slice::slice_subrange(cur, 2, 2 + fl)) {
                Some(f) => f,
                None => return None,
            };
            let r = vstd::slice::slice_subrange(cur, 2 + fl, cur.len());
            if r.len() < 8 {
                return None;
            }
            let h = match u64_from_le_bytes(vstd::slice::slice_subrange(r, 0, 8)) {
                Some(v) => v,
                None => return None,
            };
            let ghost acc0 = flames_view(flames@);
            let ghost fv = flame@;
            flames.push((flame, h));
            proof {
                assert(r@.subrange(8, r@.len() as int) =~= bytes@.subrange(cursor + 2 + fl + 8, bytes@.len() as int));
                assert(flames_view(flames@) =~= acc0 + seq![(fv, h)]);
                let rest = entries_decode(bytes@.subrange(cursor + 2 + fl + 8, bytes@.len() as int), (n - i - 1) as nat);
                if rest is Some {
                    assert(acc0 + (seq![(fv, h)] + rest->Some_0) =~= (acc0 + seq![(fv, h)]) + rest->Some_0);
                }
            }
            cursor = cursor + 2 + fl + 8;
            i = i + 1;
        }
        proof {
            assert(flames_view(flames@) + Seq::<(FlameView, u64)>::empty() =~= flames_view(flames@));
        }
        Some(FMAccountFlameSet { flames })
    }
}

/// Flames whose encodings fit their length fields, fewer than 2^32 of them.
pub open spec fn flames_encodable(s: Seq<(FlameView, u64)>) -> bool {
    &&& s.len() < 0x1_0000_0000
    &&& forall|i: int| 0 <= i < s.len() ==> {
        &&& (#[trigger] s[i]).0.spk.len() < 0x1_0000
        &&& flame_encode(s[i].0).len() < 0x1_0000
    }
}

/// Decoding the encodings of flames, followed by any bytes, gives the flames back.
pub proof fn lemma_entries_round_trip(s: Seq<(FlameView, u64)>, rest: Seq<u8>)
    requires
        forall|i: int| 0 <= i < s.len() ==> {
            &&& (#[trigger] s[i]).0.spk.len() < 0x1_0000
            &&& flame_encode(s[i].0).len() < 0x1_0000
        },
    ensures
        entries_decode(entries_encode(s) + rest, s.len()) == Some(s),
    decreases s.len(),
{
    if s.len() > 0 {
        let e = s[0];
        let t = s.subrange(1, s.len() as int);
        lemma_entries_round_trip(t, rest);
        let fb = flame_encode(e.0);
        let b = entries_encode(s) + rest;
        lemma_pow256_values();
        lemma_le_encode_len(fb.len() % 0x1_0000, 2);
        lemma_le_encode_len(e.1 as nat, 8);
        lemma_le_round_trip(fb.len(), 2);
        lemma_le_round_trip(e.1 as nat, 8);
        assert(b =~= le_encode(fb.len(), 2) + fb + le_encode(e.1 as nat, 8) + (entries_encode(t) + rest));
        assert(b.subrange(0, 2) =~= le_encode(fb.len(), 2));
        assert(b.subrange(2, 2 + fb.len() as int) =~= fb + Seq::<u8>::empty());
        law_flame_round_trip(e.0, Seq::<u8>::empty());
        let r = b.subrange(2 + fb.len() as int, b.len() as int);
        assert(r =~= le_encode(e.1 as nat, 8) + (entries_encode(t) + rest));
        assert(r.subrange(0, 8) =~= le_encode(e.1 as nat, 8));
        assert(r.subrange(8, r.len() as int) =~= entries_encode(t) + rest);
        assert(seq![(e.0, e.1)] + t =~= s);
    }
}

/// Decoding the encoding of a flame set gives the flames back, when each flame's encoding fits its
/// length field and there are fewer than 2^32 flames.
pub proof fn law_flame_set_round_trip(s: Seq<(FlameView, u64)>)
    requires
        flames_encodable(s),
    ensures
        flame_set_decode(flame_set_encode(s)) == Some(s),
{
    let b = flame_set_encode(s);
    lemma_pow256_values();
    lemma_le_encode_len(s.len() % 0x1_0000_0000, 4);
    lemma_le_round_trip(s.len(), 4);
    assert(b.subrange(0, 4) =~= le_encode(s.len(), 4));
    assert(b.subrange(4, b.len() as int) =~= entries_encode(s) + Seq::<u8>::empty());
    lemma_entries_round_trip(s, Seq::<u8>::empty());
}

} // verus!
