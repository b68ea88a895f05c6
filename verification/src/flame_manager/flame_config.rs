use crate::codec::{bytes_copy, le_encode, le_value, lemma_le_encode_len, lemma_le_round_trip, lemma_le_encode_of_value, lemma_pow256_values, u16_from_le_bytes, u16_to_le_bytes};
use vstd::prelude::*;

verus! {

/// The abstract content of a tier's flame configuration.
pub struct TierView {
    pub version: u8,
    pub spk: Seq<u8>,
}

/// The flame configuration of one tier: a version and a script pubkey.
#[derive(Debug)]
pub struct TierFlameConfig {
    /// Flame version.
    pub version: u8,
    /// Script pubkey.
    pub script_pubkey: Vec<u8>,
}

impl View for TierFlameConfig {
    type V = TierView;

    open spec fn view(&self) -> TierView {
        TierView { version: self.version, spk: self.script_pubkey@ }
    }
}

/// The abstract content of an optional tier configuration.
pub open spec fn tier_view(o: Option<TierFlameConfig>) -> Option<TierView> {
    match o {
        Some(t) => Some(t@),
        None => None,
    }
}

/// The flame configuration of an account, tier by tier.
#[derive(Debug)]
pub struct FMAccountFlameConfig {
    /// Tier #1, 100 satoshis.
    pub tier_1_hundred_satoshis: Option<TierFlameConfig>,
    /// Tier #2, 1,000 satoshis.
    pub tier_2_thousand_satoshis: Option<TierFlameConfig>,
    /// Tier #3, 10,000 satoshis.
    pub tier_3_ten_thousand_satoshis: Option<TierFlameConfig>,
    /// Tier #4, 100,000 satoshis.
    pub tier_4_hundred_thousand_satoshis: Option<TierFlameConfig>,
    /// Tier #5, 1,000,000 satoshis.
    pub tier_5_one_million_satoshis: Option<TierFlameConfig>,
    /// Tier #6, 10,000,000 satoshis.
    pub tier_6_ten_million_satoshis: Option<TierFlameConfig>,
    /// Tier #7, 100,000,000 satoshis.
    pub tier_7_hundred_million_satoshis: Option<TierFlameConfig>,
    /// Any satoshi amount; when set it takes precedence over all other tiers.
    pub tier_any_amount: Option<TierFlameConfig>,
}

impl View for FMAccountFlameConfig {
    /// The eight tier slots in order: tiers 1 to 7, then the any-amount tier.
    type V = Seq<Option<TierView>>;

    open spec fn view(&self) -> Seq<Option<TierView>> {
        seq![
            tier_view(self.tier_1_hundred_satoshis),
            tier_view(self.tier_2_thousand_satoshis),
            tier_view(self.tier_3_ten_thousand_satoshis),
            tier_view(self.tier_4_hundred_thousand_satoshis),
            tier_view(self.tier_5_one_million_satoshis),
            tier_view(self.tier_6_ten_million_satoshis),
            tier_view(self.tier_7_hundred_million_satoshis),
            tier_view(self.tier_any_amount),
        ]
    }
}

/// Whether a slot stores its script pubkey length in one byte (tier 6) rather than two.
pub open spec fn short_slot(i: int) -> bool {
    i == 5
}

/// The encoding of one tier slot: 0x00 when unset; else 0x01, the version, the script pubkey length
/// (one byte modulo 2^8 for a short slot, else two little-endian bytes modulo 2^16), and the script
/// pubkey.
pub open spec fn slot_encode(o: Option<TierView>, short: bool) -> Seq<u8> {
    match o {
        None => seq![0x00u8],
        Some(t) => seq![0x01u8, t.version] + (if short {
            seq![(t.spk.len() % 0x100) as u8]
        } else {
            le_encode(t.spk.len() % 0x1_0000, 2)
        }) + t.spk,
    }
}

/// The encodings of the slots from `i` on.
pub open spec fn slots_encode(slots: Seq<Option<TierView>>, i: nat) -> Seq<u8>
    decreases 8 - i,
{
    if i >= 8 {
        Seq::empty()
    } else {
        slot_encode(slots[i as int], short_slot(i as int)) + slots_encode(slots, i + 1)
    }
}

/// The encoding of a flame configuration.
pub open spec fn config_encode(slots: Seq<Option<TierView>>) -> Seq<u8> {
    slots_encode(slots, 0)
}

/// The tier slot that bytes start with and its encoded length, if any.
pub open spec fn slot_decode(b: Seq<u8>, short: bool) -> Option<(Option<TierView>, nat)> {
    if b.len() == 0 {
        None
    } else if b[0] == 0x00 {
        Some((None, 1))
    } else if b[0] == 0x01 {
        if b.len() < 2 {
            None
        } else if short {
            if b.len() < 3 || b.len() < 3 + b[2] {
                None
            } else {
                Some((Some(TierView { version: b[1], spk: b.subrange(3, 3 + b[2]) }), (3 + b[2]) as nat))
            }
        } else {
            if b.len() < 4 {
                None
            } else {
                let l = le_value(b.subrange(2, 4));
                if b.len() < 4 + l {
                    None
                } else {
                    Some((Some(TierView { version: b[1], spk: b.subrange(4, 4 + l as int) }), 4 + l))
                }
            }
        }
    } else {
        None
    }
}

/// The slots from `i` on decoded from bytes, which they must use up exactly.
pub open spec fn slots_decode(b: Seq<u8>, i: nat) -> Option<Seq<Option<TierView>>>
    decreases 8 - i,
{
    if i >= 8 {
        if b.len() == 0 {
            Some(Seq::empty())
        } else {
            None
        }
    } else {
        match slot_decode(b, short_slot(i as int)) {
            None => None,
            Some((o, k)) => match slots_decode(b.subrange(k as int, b.len() as int), i + 1) {
                None => None,
                Some(rest) => Some(seq![o] + rest),
            },
        }
    }
}

/// The flame configuration that bytes encode exactly, if any.
pub open spec fn config_decode(b: Seq<u8>) -> Option<Seq<Option<TierView>>> {
    slots_decode(b, 0)
}

/// Decoding prepends the slots decoded so far.
pub open spec fn prepend_slots(acc: Seq<Option<TierView>>, rest: Option<Seq<Option<TierView>>>) -> Option<Seq<Option<TierView>>> {
    match rest {
        None => None,
        Some(r) => Some(acc + r),
    }
}

/// A copy of an optional tier configuration.
fn tier_copy(o: &Option<TierFlameConfig>) -> (r: Option<TierFlameConfig>)
    ensures
        tier_view(r) == tier_view(*o),
{
    match o {
        None => None,
        Some(t) => Some(TierFlameConfig { version: t.version, script_pubkey: bytes_copy(t.script_pubkey.as_slice()) }),
    }
}

/// A tier configuration from a version and a script pubkey.
fn tier_from(o: Option<(u8, Vec<u8>)>) -> (r: Option<TierFlameConfig>)
    ensures
        tier_view(r) == match o {
            Some(p) => Some(TierView { version: p.0, spk: p.1@ }),
            None => None::<TierView>,
        },
{
    match o {
        None => None,
        Some((version, script_pubkey)) => Some(TierFlameConfig { version, script_pubkey }),
    }
}

/// Appends the encoding of one tier slot.
fn push_slot(bytes: &mut Vec<u8>, o: &Option<TierFlameConfig>, short: bool)
    ensures
        final(bytes)@ == old(bytes)@ + slot_encode(tier_view(*o), short),
{
    match o {
        None => {
            bytes.push(0x00);
        },
        Some(t) => {
            bytes.push(0x01);
            bytes.push(t.version);
            let ghost mid = bytes@;
            if short {
                bytes.push((t.script_pubkey.len() % 0x100) as u8);
            } else {
                let mut lb = u16_to_le_bytes((t.script_pubkey.len() % 0x1_0000) as u16);
                bytes.append(&mut lb);
            }
            let mut spk = bytes_copy(t.script_pubkey.as_slice());
            bytes.append(&mut spk);
            proof {
                assert(bytes@ =~= old(bytes)@ + slot_encode(tier_view(*o), short));
            }
        },
    }
}

/// Reads the tier slot that bytes start with.
fn read_slot(b: &[u8], short: bool) -> (r: Option<(Option<TierFlameConfig>, usize)>)
    ensures
        match r {
            None => slot_decode(b@, short) is None,
            Some((o, k)) => slot_decode(b@, short) == Some((tier_view(o), k as nat)),
        },
{
    if b.len() == 0 {
        return None;
    }
    if b[0] == 0x00 {
        return Some((None, 1));
    }
    if b[0] != 0x01 {
        return None;
    }
    if b.len() < 2 {
        return None;
    }
    let version = b[1];
    if short {
        if b.len() < 3 {
            return None;
        }
        let l = b[2] as usize;
        if b.len() < 3 + l {
            return None;
        }
        let spk = bytes_copy(vstd::slice::slice_subrange(b, 3, 3 + l));
        Some((Some(TierFlameConfig { version, script_pubkey: spk }), 3 + l))
    } else {
        if b.len() < 4 {
            return None;
        }
        let l = match u16_from_le_bytes(vstd::slice::slice_subrange(b, 2, 4)) {
            Some(v) => v as usize,
            None => return None,
        };
        if b.len() < 4 + l {
            return None;
        }
        let spk = bytes_copy(vstd::slice::slice_subrange(b, 4, 4 + l));
        Some((Some(TierFlameConfig { version, script_pubkey: spk }), 4 + l))
    }
}

impl FMAccountFlameConfig {
    /// A flame configuration with no tier set.
    pub fn fresh_new() -> (r: Self)
        ensures
            r@ == Seq::new(8, |i: int| None::<TierView>),
    {
        let r = FMAccountFlameConfig {
            tier_1_hundred_satoshis: None,
            tier_2_thousand_satoshis: None,
            tier_3_ten_thousand_satoshis: None,
            tier_4_hundred_thousand_satoshis: None,
            tier_5_one_million_satoshis: None,
            tier_6_ten_million_satoshis: None,
            tier_7_hundred_million_satoshis: None,
            tier_any_amount: None,
        };
        assert(r@ =~= Seq::new(8, |i: int| None::<TierView>));
        r
    }

    /// A flame configuration from each tier's version and script pubkey, where set.
    pub fn new(
        tier_1: Option<(u8, Vec<u8>)>,
        tier_2: Option<(u8, Vec<u8>)>,
        tier_3: Option<(u8, Vec<u8>)>,
        tier_4: Option<(u8, Vec<u8>)>,
        tier_5: Option<(u8, Vec<u8>)>,
        tier_6: Option<(u8, Vec<u8>)>,
        tier_7: Option<(u8, Vec<u8>)>,
        tier_any_amount: Option<(u8, Vec<u8>)>,
    ) -> (r: Self)
        ensures
            r@ == seq![tier_1, tier_2, tier_3, tier_4, tier_5, tier_6, tier_7, tier_any_amount].map_values(
                |o: Option<(u8, Vec<u8>)>| match o {
                    Some(p) => Some(TierView { version: p.0, spk: p.1@ }),
                    None => None::<TierView>,
                }),
    {
        let r = FMAccountFlameConfig {
            tier_1_hundred_satoshis: tier_from(tier_1),
            tier_2_thousand_satoshis: tier_from(tier_2),
            tier_3_ten_thousand_satoshis: tier_from(tier_3),
            tier_4_hundred_thousand_satoshis: tier_from(tier_4),
            tier_5_one_million_satoshis: tier_from(tier_5),
            tier_6_ten_million_satoshis: tier_from(tier_6),
            tier_7_hundred_million_satoshis: tier_from(tier_7),
            tier_any_amount: tier_from(tier_any_amount),
        };
        proof {
            let ghost s = seq![tier_1, tier_2, tier_3, tier_4, tier_5, tier_6, tier_7, tier_any_amount];
            assert(r@ =~= s.map_values(|o: Option<(u8, Vec<u8>)>| match o {
                Some(p) => Some(TierView { version: p.0, spk: p.1@ }),
                None => None::<TierView>,
            }));
        }
        r
    }

    /// A copy of the flame configuration.
    pub fn duplicate(&self) -> (r: Self)
        ensures
            r@ == self@,
    {
        FMAccountFlameConfig {
            tier_1_hundred_satoshis: tier_copy(&self.tier_1_hundred_satoshis),
            tier_2_thousand_satoshis: tier_copy(&self.tier_2_thousand_satoshis),
            tier_3_ten_thousand_satoshis: tier_copy(&self.tier_3_ten_thousand_satoshis),
            tier_4_hundred_thousand_satoshis: tier_copy(&self.tier_4_hundred_thousand_satoshis),
            tier_5_one_million_satoshis: tier_copy(&self.tier_5_one_million_satoshis),
            tier_6_ten_million_satoshis: tier_copy(&self.tier_6_ten_million_satoshis),
            tier_7_hundred_million_satoshis: tier_copy(&self.tier_7_hundred_million_satoshis),
            tier_any_amount: tier_copy(&self.tier_any_amount),
        }
    }

    /// Whether the configuration can be used: one of tiers 1 to 5 is set.
    pub fn is_ready(&self) -> (r: bool)
        ensures
            r == (exists|i: int| 0 <= i < 5 && #[trigger] self@[i] is Some),
    {
        let r = self.tier_1_hundred_satoshis.is_some() || self.tier_2_thousand_satoshis.is_some()
            || self.tier_3_ten_thousand_satoshis.is_some() || self.tier_4_hundred_thousand_satoshis.is_some()
            || self.tier_5_one_million_satoshis.is_some();
        proof {
            if r {
                if self@[0] is Some {
                } else if self@[1] is Some {
                } else if self@[2] is Some {
                } else if self@[3] is Some {
                } else {
                    assert(self@[4] is Some);
                }
            }
        }
        r
    }

    /// The configuration of a slot: tiers 1 to 7, then the any-amount tier.
    fn slot(&self, i: usize) -> (r: &Option<TierFlameConfig>)
        requires
            i < 8,
        ensures
            tier_view(*r) == self@[i as int],
    {
        match i {
            0 => &self.tier_1_hundred_satoshis,
            1 => &self.tier_2_thousand_satoshis,
            2 => &self.tier_3_ten_thousand_satoshis,
            3 => &self.tier_4_hundred_thousand_satoshis,
            4 => &self.tier_5_one_million_satoshis,
            5 => &self.tier_6_ten_million_satoshis,
            6 => &self.tier_7_hundred_million_satoshis,
            _ => &self.tier_any_amount,
        }
    }

    /// Serializes the configuration for storage.
    pub fn to_db_value_bytes(&self) -> (r: Vec<u8>)
        ensures
            r@ == config_encode(self@),
    {
        let mut bytes: Vec<u8> = Vec::new();
        let mut i: usize = 0;
        while i < 8
            invariant
                0 <= i <= 8,
                slots_encode(self@, 0) == bytes@ + slots_encode(self@, i as nat),
            decreases 8 - i,
        {
            let ghost before = bytes@;
            push_slot(&mut bytes, self.slot(i), i == 5);
            proof {
                assert(slots_encode(self@, i as nat) == slot_encode(self@[i as int], short_slot(i as int)) + slots_encode(self@, (i + 1) as nat));
                assert(before + slots_encode(self@, i as nat) =~= bytes@ + slots_encode(self@, (i + 1) as nat));
            }
            i = i + 1;
        }
        proof {
            assert(bytes@ + Seq::<u8>::empty() =~= bytes@);
        }
        bytes
    }

    /// Deserializes a configuration from stored bytes, which it must use up exactly.
    pub fn from_db_value_bytes(bytes: &[u8]) -> (r: Option<FMAccountFlameConfig>)
        ensures
            match r {
                Some(c) => config_decode(bytes@) == Some(c@),
                None => config_decode(bytes@) is None,
            },
    {
        let mut slots: Vec<Option<TierFlameConfig>> = Vec::new();
        let mut cursor: usize = 0;
        proof {
            assert(bytes@.subrange(0, bytes@.len() as int) =~= bytes@);
            assert(slots@.map_values(|o: Option<TierFlameConfig>| tier_view(o)) =~= Seq::<Option<TierView>>::empty());
            if config_decode(bytes@) is Some {
                assert(Seq::<Option<TierView>>::empty() + config_decode(bytes@)->Some_0 =~= config_decode(bytes@)->Some_0);
            }
        }
        let mut i: usize = 0;
        while i < 8
            invariant
                0 <= i <= 8,
                cursor <= bytes@.len(),
                slots@.len() == i,
                config_decode(bytes@) == prepend_slots(
                    slots@.map_values(|o: Option<TierFlameConfig>| tier_view(o)),
                    slots_decode(bytes@.subrange(cursor as int, bytes@.len() as int), i as nat),
                ),
            decreases 8 - i,
        {
            let cur = vstd::slice::slice_subrange(bytes, cursor, bytes.len());
            proof {
                assert(bytes@.subrange(0, bytes@.len() as int) =~= bytes@);
                assert(slots@.map_values(|o: Option<TierFlameConfig>| tier_view(o)) + Seq::<Option<TierView>>::empty()
                    =~= slots@.map_values(|o: Option<TierFlameConfig>| tier_view(o)));
            }
            match read_slot(cur, i == 5) {
                None => {
                    return None;
                },
                Some((o, k)) => {
                    let ghost acc0 = slots@.map_values(|o: Option<TierFlameConfig>| tier_view(o));
                    let ghost ov = tier_view(o);
                    slots.push(o);
                    proof {
                        assert(cur@.subrange(k as int, cur@.len() as int) =~= bytes@.subrange(cursor + k, bytes@.len() as int));
                        assert(slots@.map_values(|o: Option<TierFlameConfig>| tier_view(o)) =~= acc0.push(ov));
                        let rest = slots_decode(bytes@.subrange(cursor + k, bytes@.len() as int), (i + 1) as nat);
                        if rest is Some {
                            assert(acc0 + (seq![ov] + rest->Some_0) =~= acc0.push(ov) + rest->Some_0);
                        }
                    }
                    cursor = cursor + k;
                },
            }
            i = i + 1;
        }
        if cursor != bytes.len() {
            return None;
        }
        proof {
            assert(bytes@.subrange(cursor as int, bytes@.len() as int) =~= Seq::<u8>::empty());
        }
        let ghost sv = slots@.map_values(|o: Option<TierFlameConfig>| tier_view(o));
        proof {
            assert(sv + Seq::<Option<TierView>>::empty() =~= sv);
        }
        let tier_any_amount = slots.pop().unwrap();
        let tier_7 = slots.pop().unwrap();
        let tier_6 = slots.pop().unwrap();
        let tier_5 = slots.pop().unwrap();
        let tier_4 = slots.pop().unwrap();
        let tier_3 = slots.pop().unwrap();
        let tier_2 = slots.pop().unwrap();
        let tier_1 = slots.pop().unwrap();
        let c = FMAccountFlameConfig {
            tier_1_hundred_satoshis: tier_1,
            tier_2_thousand_satoshis: tier_2,
            tier_3_ten_thousand_satoshis: tier_3,
            tier_4_hundred_thousand_satoshis: tier_4,
            tier_5_one_million_satoshis: tier_5,
            tier_6_ten_million_satoshis: tier_6,
            tier_7_hundred_million_satoshis: tier_7,
            tier_any_amount,
        };
        proof {
            assert(c@ =~= sv);
        }
        Some(c)
    }
}

/// Decoding the encoding of a slot, followed by any bytes, gives the slot and its length back, when
/// its script pubkey fits its length field.
pub proof fn lemma_slot_round_trip(o: Option<TierView>, short: bool, rest: Seq<u8>)
    requires
        o matches Some(t) ==> t.spk.len() < (if short { 0x100nat } else { 0x1_0000nat }),
    ensures
        slot_decode(slot_encode(o, short) + rest, short) == Some((o, slot_encode(o, short).len())),
{
    let b = slot_encode(o, short) + rest;
    if let Some(t) = o {
        lemma_pow256_values();
        if short {
            assert(b[2] == t.spk.len());
            assert(b.subrange(3, 3 + b[2]) =~= t.spk);
        } else {
            lemma_le_encode_len(t.spk.len(), 2);
            lemma_le_round_trip(t.spk.len(), 2);
            assert(b.subrange(2, 4) =~= le_encode(t.spk.len(), 2));
            assert(b.subrange(4, 4 + t.spk.len() as int) =~= t.spk);
        }
    }
}

/// A decoded slot is encoded by exactly the bytes it was decoded from.
pub proof fn lemma_slot_canonical(b: Seq<u8>, short: bool)
    requires
        slot_decode(b, short) is Some,
    ensures
        ({
            let (o, k) = slot_decode(b, short)->Some_0;
            k <= b.len() && slot_encode(o, short) == b.subrange(0, k as int)
        }),
{
    let (o, k) = slot_decode(b, short)->Some_0;
    if b[0] == 0x01 {
        lemma_pow256_values();
        if short {
            assert(slot_encode(o, short) =~= b.subrange(0, k as int));
        } else {
            crate::codec::lemma_le_value_bound(b.subrange(2, 4));
            lemma_le_encode_of_value(b.subrange(2, 4));
            assert(slot_encode(o, short) =~= b.subrange(0, k as int));
        }
    } else {
        assert(slot_encode(o, short) =~= b.subrange(0, k as int));
    }
}

/// Slots whose script pubkeys fit their length fields: under 2^8 bytes for tier 6, under 2^16 for
/// the others.
pub open spec fn slots_encodable(slots: Seq<Option<TierView>>) -> bool {
    &&& slots.len() == 8
    &&& forall|i: int| 0 <= i < 8 ==> (#[trigger] slots[i] matches Some(t) ==> t.spk.len() < (if short_slot(i) {
        0x100nat
    } else {
        0x1_0000nat
    }))
}

/// Decoding the encodings of the slots from `i` on gives them back.
pub proof fn lemma_slots_round_trip(slots: Seq<Option<TierView>>, i: nat)
    requires
        slots_encodable(slots),
        i <= 8,
    ensures
        slots_decode(slots_encode(slots, i), i) == Some(slots.subrange(i as int, 8)),
    decreases 8 - i,
{
    if i < 8 {
        lemma_slots_round_trip(slots, i + 1);
        let se = slot_encode(slots[i as int], short_slot(i as int));
        let rest = slots_encode(slots, i + 1);
        lemma_slot_round_trip(slots[i as int], short_slot(i as int), rest);
        assert((se + rest).subrange(se.len() as int, (se + rest).len() as int) =~= rest);
        assert(seq![slots[i as int]] + slots.subrange(i as int + 1, 8) =~= slots.subrange(i as int, 8));
    } else {
        assert(slots.subrange(8, 8) =~= Seq::<Option<TierView>>::empty());
    }
}

/// Decoding the storage encoding of a flame configuration gives it back, when each script pubkey
/// fits its length field.
pub proof fn law_config_round_trip(slots: Seq<Option<TierView>>)
    requires
        slots_encodable(slots),
    ensures
        config_decode(config_encode(slots)) == Some(slots),
{
    lemma_slots_round_trip(slots, 0);
    assert(slots.subrange(0, 8) =~= slots);
}

/// Bytes that decode as the slots from `i` on are exactly their encoding.
pub proof fn lemma_slots_canonical(b: Seq<u8>, i: nat, full: Seq<Option<TierView>>)
    requires
        i <= 8,
        full.len() == 8,
        slots_decode(b, i) == Some(full.subrange(i as int, 8)),
    ensures
        slots_encode(full, i) == b,
    decreases 8 - i,
{
    if i < 8 {
        lemma_slot_canonical(b, short_slot(i as int));
        let (o, k) = slot_decode(b, short_slot(i as int))->Some_0;
        let tail = b.subrange(k as int, b.len() as int);
        let rest = slots_decode(tail, i + 1)->Some_0;
        assert(full.subrange(i as int, 8)[0] == full[i as int]);
        lemma_slots_decode_len(tail, i + 1);
        assert(rest =~= full.subrange(i as int + 1, 8)) by {
            assert(seq![o] + rest == full.subrange(i as int, 8));
            assert forall|j: int| 0 <= j < rest.len() implies rest[j] == full.subrange(i as int + 1, 8)[j] by {
                assert((seq![o] + rest)[j + 1] == rest[j]);
                assert(full.subrange(i as int, 8)[j + 1] == full[i + j + 1]);
            }
        }
        lemma_slots_canonical(tail, i + 1, full);
        assert(b =~= b.subrange(0, k as int) + tail);
    } else {
        assert(b.len() == 0);
    }
}

/// Bytes that decode as a flame configuration are exactly its storage encoding.
pub proof fn law_config_canonical(b: Seq<u8>)
    requires
        config_decode(b) is Some,
    ensures
        config_encode(config_decode(b)->Some_0) == b,
{
    let full = config_decode(b)->Some_0;
    lemma_slots_decode_len(b, 0);
    assert(full.subrange(0, 8) =~= full);
    lemma_slots_canonical(b, 0, full);
}

/// The slots decoded from `i` on are `8 - i`.
pub proof fn lemma_slots_decode_len(b: Seq<u8>, i: nat)
    requires
        i <= 8,
        slots_decode(b, i) is Some,
    ensures
        slots_decode(b, i)->Some_0.len() == 8 - i,
    decreases 8 - i,
{
    if i < 8 {
        let (o, k) = slot_decode(b, short_slot(i as int))->Some_0;
        lemma_slots_decode_len(b.subrange(k as int, b.len() as int), i + 1);
    }
}

} // verus!
