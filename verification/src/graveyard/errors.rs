use crate::keymap::Key;
use vstd::prelude::*;

verus! {

/// Errors of burying an account (earlier naming).
#[derive(Debug)]
pub enum GraveyardBurryAccountError {
    AccountIsAlreadyEpheremallyBurried(Key),
    AccountISalreadyPermanentlyBurried(Key),
}

/// Errors of burying an account.
#[derive(Debug)]
pub enum GraveyardBuryAccountError {
    AccountHasJustBeenEpheremallyBuried(Key),
    AccountIsAlreadyPermanentlyBuried(Key),
}

/// Errors of rebuilding the graveyard from its stored entries.
#[derive(Debug)]
pub enum GraveyardConstructionError {
    UnableToDeserializeAccountKeyBytesFromDBKey(Vec<u8>),
    UnableToDeserializeRedemptionAmountBytesFromDBValue(Vec<u8>, Vec<u8>),
}

/// Errors of redeeming a buried account's coins.
#[derive(Debug)]
pub enum GraveyardRedeemAccountCoinsError {
    AccountCoinsHasJustBeenEphemerallyRedeemed(Key),
    ThisAccountHasJustBeenEphemerallyBurried(Key),
    RedemptionAmountNotFound(Key),
    AccountCoinsHasAlreadyBeenEphemerallyRedeemed(Key),
    RedemptionAmountIsLessThanTheMinimumRedemptionAmount(Key, u64, u64),
}

} // verus!
