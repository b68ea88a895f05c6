use crate::keymap::Key;
use vstd::prelude::*;

verus! {

/// Errors of increasing an account's balance in the coin holder.
#[derive(Debug)]
pub enum CHAccountBalanceUpError {
    UnableToGetAccountBalance(Key),
}

/// Errors of decreasing an account's balance in the coin holder.
#[derive(Debug)]
pub enum CHAccountBalanceDownError {
    UnableToGetAccountBalance(Key),
    AccountBalanceWouldGoBelowZero(Key, u64, u64),
}

/// Errors of increasing a contract's balance in the coin holder.
#[derive(Debug)]
pub enum CHContractBalanceUpError {
    UnableToGetContractBalance(Key),
    UnableToGetContractBody(Key),
}

/// Errors of decreasing a contract's balance in the coin holder.
#[derive(Debug)]
pub enum CHContractBalanceDownError {
    UnableToGetContractBalance(Key),
    ContractBalanceWouldGoBelowZero(Key, u64, u64),
    UnableToGetContractBody(Key),
}

/// Errors of applying the account changes of the coin holder to its permanent state.
#[derive(Debug)]
pub enum CHAccountApplyChangesError {
    UnableToGetPermanentAccountBody(Key),
}

/// Errors of applying the contract changes of the coin holder to its permanent state.
#[derive(Debug)]
pub enum CHContractApplyChangesError {
    UnableToGetPermanentContractBody(Key),
    InMemoryDeallocAccountError(Key, Key),
}

/// Errors of applying the changes of the coin holder to its permanent state.
#[derive(Debug)]
pub enum CHApplyChangesError {
    AccountApplyChangesError(CHAccountApplyChangesError),
    ContractApplyChangesError(CHContractApplyChangesError),
}

/// Errors of rebuilding an account coin holder from its stored trees.
#[derive(Debug)]
pub enum AccountCoinHolderConstructionError {
    UnableToDeserializeAccountKeyBytesFromTreeName(Vec<u8>),
    UnableToDeserializeKeyBytesFromTreeKey(Key, usize, Vec<u8>),
    UnableToDeserializeAccountBalanceFromTreeValue(Key, usize, [u8; 1], Vec<u8>),
    UnableToDeserializeAccountShadowAllocsSumFromTreeValue(Key, usize, [u8; 1], Vec<u8>),
    InvalidTreeKeyEncountered(Key, Vec<u8>),
}

/// Errors of registering a new account.
#[derive(Debug)]
pub enum AccountCoinHolderRegisterError {
    AccountHasJustBeenEphemerallyRegistered(Key),
    AccountIsAlreadyPermanentlyRegistered(Key),
}

/// Errors of increasing an account's balance.
#[derive(Debug)]
pub enum AccountBalanceUpError {
    UnableToGetAccountBalance(Key),
}

/// Errors of decreasing an account's balance.
#[derive(Debug)]
pub enum AccountBalanceDownError {
    UnableToGetAccountBalance(Key),
    AccountBalanceWouldGoBelowZero(Key, u64, u64),
}

/// Errors of increasing an account's shadow allocs sum.
#[derive(Debug)]
pub enum AccountShadowAllocsSumUpError {
    UnableToGetAccountShadowAllocsSum(Key),
    UnableToGetAccountBody(Key),
}

/// Errors of decreasing an account's shadow allocs sum.
#[derive(Debug)]
pub enum AccountShadowAllocsSumDownError {
    UnableToGetAccountShadowAllocsSum(Key),
    AccountShadowAllocsSumWouldGoBelowZero(Key, u128, u128),
    UnableToGetAccountBody(Key),
}

/// Errors of applying the changes of an account coin holder to its permanent state.
#[derive(Debug)]
pub enum AccountCoinHolderApplyChangesError {
    UnableToGetAccountBody(Key),
}

/// Errors of rebuilding a contract coin holder from its stored trees.
#[derive(Debug)]
pub enum ContractCoinHolderConstructionError {
    UnableToDeserializeContractIDBytesFromTreeName(Vec<u8>),
    UnableToDeserializeKeyBytesFromTreeKey(Key, usize, Vec<u8>),
    UnableToDeserializeContractBalanceFromTreeValue(Key, usize, [u8; 32], Vec<u8>),
    UnableToDeserializeAllocsSumFromTreeValue(Key, usize, [u8; 32], Vec<u8>),
    UnableToDeserializeAllocValueFromTreeValue(Key, usize, [u8; 32], Vec<u8>),
    AllocsSumExceedsTheContractBalance(Key, u64, u64),
}

/// Errors of rebuilding a coin holder from its stored trees.
#[derive(Debug)]
pub enum CoinHolderConstructionError {
    AccountCoinHolderConstructionError(AccountCoinHolderConstructionError),
    ContractCoinHolderConstructionError(ContractCoinHolderConstructionError),
}

/// Errors of registering a new contract.
#[derive(Debug)]
pub enum ContractCoinHolderRegisterContractError {
    ContractHasJustBeenEphemerallyRegistered(Key),
    ContractIsAlreadyPermanentlyRegistered(Key),
}

/// Errors of allocating an account in a contract's shadow space.
#[derive(Debug)]
pub enum ShadowAllocAccountError {
    AccountHasJustBeenEphemerallyAllocated(Key, Key),
    AccountHasJustBeenEphemerallyDeallocated(Key, Key),
    UnableToGetAccountAllocValue(Key, Key),
    UnableToGetContractBody(Key),
}

/// Errors of deallocating an account from a contract's shadow space.
#[derive(Debug)]
pub enum ShadowDeallocAccountError {
    AccountHasJustBeenEphemerallyAllocated(Key, Key),
    UnableToGetAccountAllocValue(Key, Key),
    AllocValueIsNonZero(Key, Key),
    UnableToGetEpheremalDeallocList(Key),
    AccountHasJustBeenEphemerallyDeallocated(Key, Key),
    UnableToGetContractBody(Key),
}

/// Errors of increasing a contract's balance.
#[derive(Debug)]
pub enum ContractBalanceUpError {
    UnableToGetContractBalance(Key),
    UnableToGetContractBody(Key),
}

/// Errors of decreasing a contract's balance.
#[derive(Debug)]
pub enum ContractBalanceDownError {
    UnableToGetContractBalance(Key),
    ContractBalanceWouldGoBelowZero(Key, u64, u64),
    UnableToGetContractBody(Key),
}

/// Errors of increasing an account's allocation in a contract's shadow space.
#[derive(Debug)]
pub enum ShadowAllocUpError {
    UnableToGetAccountShadowAllocValue(Key, Key),
    UnableToGetContractBalance(Key),
    UnableToGetContractBody(Key),
    AllocsSumExceedsTheContractBalance(Key, u64, u64),
    AccountCoinHolderShadowAllocsSumUpError(Key, Key, AccountShadowAllocsSumUpError),
}

/// Errors of decreasing an account's allocation in a contract's shadow space.
#[derive(Debug)]
pub enum ShadowAllocDownError {
    UnableToGetAccountShadowAllocValue(Key, Key),
    UnableToGetContractBalance(Key),
    AccountShadowAllocValueWouldGoBelowZero(Key, Key, u128, u128),
    UnableToGetContractBody(Key),
    AllocsSumExceedsTheContractBalance(Key, u64, u64),
    AccountCoinHolderShadowAllocsSumDownError(Key, Key, AccountShadowAllocsSumDownError),
}

/// Errors of proportionally increasing every allocation of a contract's shadow space.
#[derive(Debug)]
pub enum ShadowAllocUpAllError {
    UnableToGetContractBalance(Key),
    UnableToGetContractAllocsSum(Key),
    OperationNotPossibleWithZeroAllocsSum(Key),
    AllocsSumExceedsTheContractBalance(Key, u64, u64),
    UnableToGetContractBody(Key),
    AccountCoinHolderShadowAllocsSumUpError(Key, Key, AccountShadowAllocsSumUpError),
}

/// Errors of proportionally decreasing every allocation of a contract's shadow space.
#[derive(Debug)]
pub enum ShadowAllocDownAllError {
    UnableToGetContractBalance(Key),
    UnableToGetContractAllocsSum(Key),
    OperationNotPossibleWithZeroAllocsSum(Key),
    AllocsSumWouldGoBelowZero(Key, u64, u64),
    AllocsSumExceedsTheContractBalance(Key, u64, u64),
    UnableToGetContractBody(Key),
    AccountShadowAllocValueWouldGoBelowZero(Key, Key, u128, u128),
    AccountCoinHolderShadowAllocsSumDownError(Key, Key, AccountShadowAllocsSumDownError),
}

/// Errors of applying the changes of a contract coin holder to its permanent state.
#[derive(Debug)]
pub enum ContractCoinHolderApplyChangesError {
    UnableToGetContractBody(Key),
    InMemoryDeallocAccountError(Key, Key),
}

} // verus!
