use crate::codec::{le_encode, le_value, u64_from_le_bytes, u64_to_le_bytes, lemma_le_encode_len, lemma_le_round_trip, lemma_pow256_values};
use vstd::prelude::*;

verus! {

/// The value tier of a flame.
#[derive(Clone, Copy, Debug, PartialEq, Eq, Structural)]
pub enum FlameTier {
    Tier1HundredSatoshis,
    Tier2ThousandSatoshis,
    Tier3ThousandSatoshis,
    Tier4TenThousandSatoshis,
    Tier5HundredThousandSatoshis,
    Tier6TenMillionSatoshis,
    Tier7HundredMillionSatoshis,
    TierAnyAmount(u64),
}

/// The satoshi amount of a flame tier.
pub open spec fn tier_amount(t: FlameTier) -> u64 {
    match t {
        FlameTier::Tier1HundredSatoshis => 100,
        FlameTier::Tier2ThousandSatoshis => 1000,
        FlameTier::Tier3ThousandSatoshis => 10000,
        FlameTier::Tier4TenThousandSatoshis => 100000,
        FlameTier::Tier5HundredThousandSatoshis => 1000000,
        FlameTier::Tier6TenMillionSatoshis => 10000000,
        FlameTier::Tier7HundredMillionSatoshis => 100000000,
        FlameTier::TierAnyAmount(a) => a,
    }
}

/// The flame tier of a satoshi amount: a fixed tier for its amount, else the any-amount tier.
pub open spec fn tier_of_amount(a: u64) -> FlameTier {
    if a == 100 {
        FlameTier::Tier1HundredSatoshis
    } else if a == 1000 {
        FlameTier::Tier2ThousandSatoshis
    } else if a == 10000 {
        FlameTier::Tier3ThousandSatoshis
    } else if a == 100000 {
        FlameTier::Tier4TenThousandSatoshis
    } else if a == 1000000 {
        FlameTier::Tier5HundredThousandSatoshis
    } else if a == 10000000 {
        FlameTier::Tier6TenMillionSatoshis
    } else if a == 100000000 {
        FlameTier::Tier7HundredMillionSatoshis
    } else {
        FlameTier::TierAnyAmount(a)
    }
}

/// The encoding of a flame tier: its tag byte, then for the any-amount tier its amount in eight
/// little-endian bytes.
pub open spec fn tier_encode(t: FlameTier) -> Seq<u8> {
    match t {
        FlameTier::Tier1HundredSatoshis => seq![0x01u8],
        FlameTier::Tier2ThousandSatoshis => seq![0x02u8],
        FlameTier::Tier3ThousandSatoshis => seq![0x03u8],
        FlameTier::Tier4TenThousandSatoshis => seq![0x04u8],
        FlameTier::Tier5HundredThousandSatoshis => seq![0x05u8],
        FlameTier::Tier6TenMillionSatoshis => seq![0x06u8],
        FlameTier::Tier7HundredMillionSatoshis => seq![0x07u8],
        FlameTier::TierAnyAmount(a) => seq![0x08u8] + le_encode(a as nat, 8),
    }
}

/// The flame tier that bytes start with, if any; bytes after it are ignored.
pub open spec fn tier_decode(b: Seq<u8>) -> Option<FlameTier> {
    if b.len() == 0 {
        None
    } else if b[0] == 0x01 {
        Some(FlameTier::Tier1HundredSatoshis)
    } else if b[0] == 0x02 {
        Some(FlameTier::Tier2ThousandSatoshis)
    } else if b[0] == 0x03 {
        Some(FlameTier::Tier3ThousandSatoshis)
    } else if b[0] == 0x04 {
        Some(FlameTier::Tier4TenThousandSatoshis)
    } else if b[0] == 0x05 {
        Some(FlameTier::Tier5HundredThousandSatoshis)
    } else if b[0] == 0x06 {
        Some(FlameTier::Tier6TenMillionSatoshis)
    } else if b[0] == 0x07 {
        Some(FlameTier::Tier7HundredMillionSatoshis)
    } else if b[0] == 0x08 && b.len() >= 9 {
        Some(FlameTier::TierAnyAmount(le_value(b.subrange(1, 9)) as u64))
    } else {
        None
    }
}

impl FlameTier {
    /// The flame tier of a satoshi amount.
    pub fn new(satoshi_amount: u64) -> (r: FlameTier)
        ensures
            r == tier_of_amount(satoshi_amount),
    {
        match satoshi_amount {
            100 => FlameTier::Tier1HundredSatoshis,
            1000 => FlameTier::Tier2ThousandSatoshis,
            10000 => FlameTier::Tier3ThousandSatoshis,
            100000 => FlameTier::Tier4TenThousandSatoshis,
            1000000 => FlameTier::Tier5HundredThousandSatoshis,
            10000000 => FlameTier::Tier6TenMillionSatoshis,
            100000000 => FlameTier::Tier7HundredMillionSatoshis,
            _ => FlameTier::TierAnyAmount(satoshi_amount),
        }
    }

    /// The satoshi amount of the tier.
    pub fn satoshi_amount(&self) -> (r: u64)
        ensures
            r == tier_amount(*self),
    {
        match self {
            FlameTier::Tier1HundredSatoshis => 100,
            FlameTier::Tier2ThousandSatoshis => 1000,
            FlameTier::Tier3ThousandSatoshis => 10000,
            FlameTier::Tier4TenThousandSatoshis => 100000,
            FlameTier::Tier5HundredThousandSatoshis => 1000000,
            FlameTier::Tier6TenMillionSatoshis => 10000000,
            FlameTier::Tier7HundredMillionSatoshis => 100000000,
            FlameTier::TierAnyAmount(amount) => *amount,
        }
    }

    /// Serializes the flame tier.
    pub fn to_bytes(&self) -> (r: Vec<u8>)
        ensures
            r@ == tier_encode(*self),
    {
        match self {
            FlameTier::Tier1HundredSatoshis => vec![0x01],
            FlameTier::Tier2ThousandSatoshis => vec![0x02],
            FlameTier::Tier3ThousandSatoshis => vec![0x03],
            FlameTier::Tier4TenThousandSatoshis => vec![0x04],
            FlameTier::Tier5HundredThousandSatoshis => vec![0x05],
            FlameTier::Tier6TenMillionSatoshis => vec![0x06],
            FlameTier::Tier7HundredMillionSatoshis => vec![0x07],
            FlameTier::TierAnyAmount(amount) => {
                let mut bytes: Vec<u8> = Vec::new();
                bytes.push(0x08);
                let mut a = u64_to_le_bytes(*amount);
                bytes.append(&mut a);
                proof {
                    assert(bytes@ =~= seq![0x08u8] + le_encode(*amount as nat, 8));
                }
                bytes
            },
        }
    }

    /// Deserializes a flame tier from the start of bytes.
    pub fn from_bytes(bytes: &[u8]) -> (r: Option<FlameTier>)
        ensures
            r == tier_decode(bytes@),
    {
        if bytes.len() == 0 {
            return None;
        }
        match bytes[0] {
            0x01 => Some(FlameTier::Tier1HundredSatoshis),
            0x02 => Some(FlameTier::Tier2ThousandSatoshis),
            0x03 => Some(FlameTier::Tier3ThousandSatoshis),
            0x04 => Some(FlameTier::Tier4TenThousandSatoshis),
            0x05 => Some(FlameTier::Tier5HundredThousandSatoshis),
            0x06 => Some(FlameTier::Tier6TenMillionSatoshis),
            0x07 => Some(FlameTier::Tier7HundredMillionSatoshis),
            0x08 => {
                if bytes.len() < 9 {
                    return None;
                }
                let amount_bytes = vstd::slice::slice_subrange(bytes, 1, 9);
                match u64_from_le_bytes(amount_bytes) {
                    Some(a) => Some(FlameTier::TierAnyAmount(a)),
                    None => None,
                }
            },
            _ => None,
        }
    }
}

/// The encoding of a tier is one byte long, or nine for the any-amount tier.
pub proof fn lemma_tier_encode_len(t: FlameTier)
    ensures
        tier_encode(t).len() == if t is TierAnyAmount { 9nat } else { 1nat },
        tier_encode(t).len() > 0,
{
    if let FlameTier::TierAnyAmount(a) = t {
        lemma_le_encode_len(a as nat, 8);
    }
}

/// Decoding the encoding of a flame tier, with any bytes after it, gives the tier back.
pub proof fn law_tier_round_trip(t: FlameTier, rest: Seq<u8>)
    ensures
        tier_decode(tier_encode(t) + rest) == Some(t),
{
    lemma_tier_encode_len(t);
    if let FlameTier::TierAnyAmount(a) = t {
        lemma_pow256_values();
        lemma_le_round_trip(a as nat, 8);
        assert((tier_encode(t) + rest).subrange(1, 9) =~= le_encode(a as nat, 8));
    }
}

/// The amount of the tier of an amount is that amount.
pub proof fn law_tier_amount_of_new(a: u64)
    ensures
        tier_amount(tier_of_amount(a)) == a,
{
}

/// The tier of the amount of a fixed tier is that tier.
pub proof fn law_tier_new_of_amount(t: FlameTier)
    requires
        !(t is TierAnyAmount),
    ensures
        tier_of_amount(tier_amount(t)) == t,
{
}

} // verus!
