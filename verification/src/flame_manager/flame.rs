use super::flame_tier::{lemma_tier_encode_len, law_tier_round_trip, tier_amount, tier_decode, tier_encode, FlameTier};
use crate::codec::{bytes_copy, le_encode, le_value, lemma_le_encode_len, lemma_le_round_trip, lemma_pow256_values, u16_from_le_bytes, u16_to_le_bytes};
use vstd::prelude::*;

verus! {

/// The abstract content of a flame.
pub struct FlameView {
    pub tier: FlameTier,
    pub spk: Seq<u8>,
}

/// A flame: a value tier and the script pubkey that receives it.
#[derive(Debug)]
pub struct Flame {
    /// Flame tier.
    pub flame_tier: FlameTier,
    /// Flame script pubkey.
    pub script_pubkey: Vec<u8>,
}

impl View for Flame {
    type V = FlameView;

    open spec fn view(&self) -> FlameView {
        FlameView { tier: self.flame_tier, spk: self.script_pubkey@ }
    }
}

/// The encoding of a flame: the tier encoding's length in one byte, the tier encoding, the script
/// pubkey's length in two little-endian bytes (modulo 2^16), then the script pubkey.
pub open spec fn flame_encode(f: FlameView) -> Seq<u8> {
    seq![tier_encode(f.tier).len() as u8] + tier_encode(f.tier) + le_encode(f.spk.len() % 0x1_0000, 2) + f.spk
}

/// The flame that bytes start with, if any; bytes after it are ignored.
pub open spec fn flame_decode(b: Seq<u8>) -> Option<FlameView> {
    if b.len() < 1 {
        None
    } else {
        let tl = b[0] as int;
        if b.len() < 1 + tl {
            None
        } else {
            match tier_decode(b.subrange(1, 1 + tl)) {
                None => None,
                Some(t) => {
                    let rest = b.subrange(1 + tl, b.len() as int);
                    if rest.len() < 2 {
                        None
                    } else {
                        let sl = le_value(rest.subrange(0, 2)) as int;
                        if rest.len() < 2 + sl {
                            None
                        } else {
                            Some(FlameView { tier: t, spk: rest.subrange(2, 2 + sl) })
                        }
                    }
                },
            }
        }
    }
}

impl Flame {
    /// Constructs a flame.
    pub fn new(flame_tier: FlameTier, script_pubkey: Vec<u8>) -> (r: Flame)
        ensures
            r@ == (FlameView { tier: flame_tier, spk: script_pubkey@ }),
    {
        Flame { flame_tier, script_pubkey }
    }

    /// The satoshi amount of the flame.
    pub fn satoshi_amount(&self) -> (r: u64)
        ensures
            r == tier_amount(self.flame_tier),
    {
        self.flame_tier.satoshi_amount()
    }

    /// A copy of the flame.
    pub fn duplicate(&self) -> (r: Flame)
        ensures
            r@ == self@,
    {
        Flame { flame_tier: self.flame_tier, script_pubkey: bytes_copy(self.script_pubkey.as_slice()) }
    }

    /// Serializes the flame.
    pub fn to_bytes(&self) -> (r: Vec<u8>)
        ensures
            r@ == flame_encode(self@),
    {
        let mut bytes: Vec<u8> = Vec::new();
        let mut tier_bytes = self.flame_tier.to_bytes();
        proof {
            lemma_tier_encode_len(self.flame_tier);
        }
        bytes.push(tier_bytes.len() as u8);
        bytes.append(&mut tier_bytes);
        let spk_len: u16 = (self.script_pubkey.len() % 0x1_0000) as u16;
        let mut len_bytes = u16_to_le_bytes(spk_len);
        bytes.append(&mut len_bytes);
        let mut spk = bytes_copy(self.script_pubkey.as_slice());
        bytes.append(&mut spk);
        proof {
            assert(bytes@ =~= flame_encode(self@));
        }
        bytes
    }

    /// Deserializes a flame from the start of bytes.
    pub fn from_bytes(bytes: &[u8]) -> (r: Option<Flame>)
        ensures
            match r {
                Some(f) => flame_decode(bytes@) == Some(f@),
                None => flame_decode(bytes@) is None,
            },
    {
        if bytes.len() < 1 {
            return None;
        }
        let tl = bytes[0] as usize;
        if bytes.len() < 1 + tl {
            return None;
        }
        let tier = match FlameTier::from_bytes(vstd::slice::slice_subrange(bytes, 1, 1 + tl)) {
            Some(t) => t,
            None => return None,
        };
        let rest = vstd::slice::slice_subrange(bytes, 1 + tl, bytes.len());
        if rest.len() < 2 {
            return None;
        }
        let sl = match u16_from_le_bytes(vstd::slice::slice_subrange(rest, 0, 2)) {
            Some(v) => v as usize,
            None => return None,
        };
        if rest.len() < 2 + sl {
            return None;
        }
        let spk = bytes_copy(vstd::slice::slice_subrange(rest, 2, 2 + sl));
        Some(Flame { flame_tier: tier, script_pubkey: spk })
    }
}

/// The encoding of a flame is its tier encoding, its script pubkey and three bytes long.
pub proof fn lemma_flame_encode_len(f: FlameView)
    ensures
        flame_encode(f).len() == 3 + tier_encode(f.tier).len() + f.spk.len(),
{
    lemma_le_encode_len(f.spk.len() % 0x1_0000, 2);
}

/// Decoding the encoding of a flame whose script pubkey is shorter than 2^16 bytes, with any bytes
/// after it, gives the flame back.
pub proof fn law_flame_round_trip(f: FlameView, rest: Seq<u8>)
    requires
        f.spk.len() < 0x1_0000,
    ensures
        flame_decode(flame_encode(f) + rest) == Some(f),
{
    let te = tier_encode(f.tier);
    let b = flame_encode(f) + rest;
    lemma_tier_encode_len(f.tier);
    lemma_le_encode_len(f.spk.len() % 0x1_0000, 2);
    lemma_pow256_values();
    lemma_le_round_trip(f.spk.len(), 2);
    assert(b[0] == te.len() as u8);
    assert(b.subrange(1, 1 + te.len() as int) =~= te + Seq::<u8>::empty());
    law_tier_round_trip(f.tier, Seq::<u8>::empty());
    let r = b.subrange(1 + te.len() as int, b.len() as int);
    assert(r =~= le_encode(f.spk.len(), 2) + f.spk + rest);
    assert(r.subrange(0, 2) =~= le_encode(f.spk.len(), 2));
    assert(r.subrange(2, 2 + f.spk.len() as int) =~= f.spk);
}

} // verus!
