use crate::keymap::Key;
use vstd::prelude::*;

verus! {

/// Errors of applying a flame manager's changes.
#[derive(Debug)]
pub enum FMApplyChangesError {
    ProjectorExpiryHeightIsNotSet,
    AccountNotFoundInMemory(Key),
    AccountTargetFlameValueCouldNotBeRetrieved(Key),
}

/// Errors of rebuilding a flame manager from its stored trees.
#[derive(Debug)]
pub enum FMConstructionError {
    UnableToDeserializeAccountDbKeyByteFromTreeKey(Key, Vec<u8>),
    UnableToDeserializeAccountFlameConfigBytesFromTreeValue(Key, Vec<u8>),
    UnableToDeserializeAccountFlameSetBytesFromTreeValue(Key, Vec<u8>),
    InvalidAccountDbKeyByte(Key, Vec<u8>),
}

/// Errors of registering an account with the flame manager.
#[derive(Debug)]
pub enum FMRegisterAccountError {
    AccountIsAlreadyPermanentlyRegistered(Key),
    AccountHasJustBeenEphemerallyRegistered(Key),
}

/// Errors of updating an account's flame configuration.
#[derive(Debug)]
pub enum FMUpdateAccountFlameConfigError {
    AccountIsNotRegistered(Key),
    AccountFlameConfigHasAlreadyEpheremallyUpdated(Key),
}

} // verus!
