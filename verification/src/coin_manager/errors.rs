use crate::keymap::Key;
use vstd::prelude::*;

verus! {

/// Errors of registering a new account.
#[derive(Debug)]
pub enum CMRegisterAccountError {
    AccountKeyCannotBeTheSpecialDbKeys(Key),
    AccountHasJustBeenEphemerallyRegistered(Key),
    AccountIsAlreadyPermanentlyRegistered(Key),
}

/// Errors of registering a new contract.
#[derive(Debug)]
pub enum CMRegisterContractError {
    ContractHasJustBeenEphemerallyRegistered(Key),
    ContractIsAlreadyPermanentlyRegistered(Key),
}

/// Errors of increasing an account's balance.
#[derive(Debug)]
pub enum CMAccountBalanceUpError {
    UnableToGetAccountBalance(Key),
}

/// Errors of decreasing an account's balance.
#[derive(Debug)]
pub enum CMAccountBalanceDownError {
    UnableToGetAccountBalance(Key),
    AccountBalanceWouldGoBelowZero(Key, u64, u64),
}

/// Errors of increasing a contract's balance.
#[derive(Debug)]
pub enum CMContractBalanceUpError {
    UnableToGetContractBalance(Key),
}

/// Errors of decreasing a contract's balance.
#[derive(Debug)]
pub enum CMContractBalanceDownError {
    UnableToGetContractBalance(Key),
    ContractBalanceWouldGoBelowZero(Key, u64, u64),
    UnableToGetContractAllocsSum(Key),
    ContractBalanceWouldGoBelowAllocsSum(Key, u64, u64),
}

/// Errors of allocating an account in a contract's shadow space.
#[derive(Debug)]
pub enum CMContractShadowAllocAccountError {
    AccountHasJustBeenEphemerallyAllocated(Key, Key),
    AccountHasJustBeenEphemerallyDeallocated(Key, Key),
    AccountIsAlreadyPermanentlyAllocated(Key, Key),
    UnableToGetAccountAllocValue(Key, Key),
    UnableToGetContractBody(Key),
    UnableToGetMutEphemeralShadowSpace(Key),
}

/// Errors of deallocating an account from a contract's shadow space.
#[derive(Debug)]
pub enum CMContractShadowDeallocAccountError {
    AccountHasJustBeenEphemerallyAllocated(Key, Key),
    UnableToGetAccountAllocValue(Key, Key),
    AllocValueIsNonZero(Key, Key),
    UnableToGetEpheremalDeallocList(Key),
    AccountHasJustBeenEphemerallyDeallocated(Key, Key),
    UnableToGetContractBody(Key),
    UnableToGetMutEphemeralShadowSpace(Key),
}

/// Errors of increasing an account's global shadow allocs sum.
#[derive(Debug)]
pub enum CMAccountShadowAllocsSumUpError {
    UnableToGetAccountShadowAllocsSum(Key),
    UnableToGetAccountBody(Key),
}

/// Errors of decreasing an account's global shadow allocs sum.
#[derive(Debug)]
pub enum CMAccountShadowAllocsSumDownError {
    UnableToGetAccountShadowAllocsSum(Key),
    AccountShadowAllocsSumWouldGoBelowZero(Key, u128, u128),
    UnableToGetAccountBody(Key),
}

/// Errors of increasing an account's allocation in a contract's shadow space.
#[derive(Debug)]
pub enum CMShadowUpError {
    UnableToGetAccountShadowAllocValue(Key, Key),
    UnableToGetContractBalance(Key),
    UnableToGetMutEphemeralShadowSpace(Key),
    AllocsSumExceedsTheContractBalance(Key, u64, u64),
    AccountShadowAllocsSumUpError(Key, Key, CMAccountShadowAllocsSumUpError),
}

/// Errors of decreasing an account's allocation in a contract's shadow space.
#[derive(Debug)]
pub enum CMShadowDownError {
    UnableToGetAccountShadowAllocValue(Key, Key),
    UnableToGetContractBalance(Key),
    AccountShadowAllocValueWouldGoBelowZero(Key, Key, u128, u128),
    UnableToGetMutEphemeralShadowSpace(Key),
    ContractShadowAllocsSumWouldGoBelowZero(Key, u64, u64),
    AllocsSumExceedsTheContractBalance(Key, u64, u64),
    AccountShadowAllocsSumDownError(Key, Key, CMAccountShadowAllocsSumDownError),
}

/// Errors of proportionally increasing every allocation of a contract's shadow space.
#[derive(Debug)]
pub enum CMShadowUpAllError {
    UnableToGetContractBalance(Key),
    UnableToGetContractAllocsSum(Key),
    OperationNotPossibleWithZeroAllocsSum(Key),
    AllocsSumExceedsTheContractBalance(Key, u64, u64),
    UnableToGetContractBody(Key),
    UnableToGetMutEphemeralShadowSpace(Key),
    AccountShadowAllocsSumUpError(Key, Key, CMAccountShadowAllocsSumUpError),
}

/// Errors of proportionally decreasing every allocation of a contract's shadow space.
#[derive(Debug)]
pub enum CMShadowDownAllError {
    UnableToGetContractBalance(Key),
    UnableToGetContractAllocsSum(Key),
    OperationNotPossibleWithZeroAllocsSum(Key),
    AllocsSumWouldGoBelowZero(Key, u64, u64),
    AllocsSumExceedsTheContractBalance(Key, u64, u64),
    UnableToGetContractBody(Key),
    UnableToGetMutEphemeralShadowSpace(Key),
    AccountShadowAllocValueWouldGoBelowZero(Key, Key, u128, u128),
    AccountShadowAllocsSumDownError(Key, Key, CMAccountShadowAllocsSumDownError),
}

/// Account-side errors of applying the changes to the permanent state.
#[derive(Debug)]
pub enum CMAccountApplyChangesError {
    UnableToGetPermanentAccountBody(Key),
}

/// Contract-side errors of applying the changes to the permanent state.
#[derive(Debug)]
pub enum CMContractApplyChangesError {
    UnableToGetPermanentContractBody(Key),
    InMemoryDeallocAccountError(Key, Key),
}

/// Errors of applying the changes to the permanent state.
#[derive(Debug)]
pub enum CMApplyChangesError {
    AccountApplyChangesError(CMAccountApplyChangesError),
    ContractApplyChangesError(CMContractApplyChangesError),
}

/// Errors of rebuilding the account bodies from their stored trees.
#[derive(Debug)]
pub enum CMConstructionAccountError {
    UnableToDeserializeKeyBytesFromTreeKey(Key, usize, Vec<u8>),
    UnableToDeserializeAccountBalanceFromTreeValue(Key, usize, [u8; 1], Vec<u8>),
    UnableToDeserializeAccountShadowAllocsSumFromTreeValue(Key, usize, [u8; 1], Vec<u8>),
    InvalidTreeKeyEncountered(Key, Vec<u8>),
}

/// Errors of rebuilding the contract bodies from their stored trees.
#[derive(Debug)]
pub enum CMConstructionContractError {
    UnableToDeserializeKeyBytesFromTreeKey(Key, usize, Vec<u8>),
    UnableToDeserializeContractBalanceFromTreeValue(Key, usize, [u8; 32], Vec<u8>),
    UnableToDeserializeAllocsSumFromTreeValue(Key, usize, [u8; 32], Vec<u8>),
    UnableToDeserializeAllocValueFromTreeValue(Key, usize, [u8; 32], Vec<u8>),
    AllocsSumExceedsTheContractBalance(Key, u64, u64),
}

/// Errors of rebuilding the coin manager from its stored trees.
#[derive(Debug)]
pub enum CMConstructionError {
    AccountConstructionError(CMConstructionAccountError),
    ContractConstructionError(CMConstructionContractError),
}

} // verus!
