use frc20::codec::{decode, encode};
use frc20::frc20::{TokenError, FRC20};
use frc20::standard_token::StandardToken;
use frc20::storage::{Blockstore, Storage};
use frc20::types::{Approve, Transfer};
use frc20::u256::U256;
use frc20::{allowance, approve, balance_of, geneses, transfer};

const A: u64 = 100;
const B: u64 = 200;
const C: u64 = 300;
const D: u64 = 400;

fn fresh_ledger() -> Blockstore {
    let mut store = Blockstore::new();
    geneses(&mut store, A, U256::from_u64(1_000_000_000));
    store
}

#[test]
fn storage() {
    let token = StandardToken::new(
        "FToken".to_owned(),
        "FT".to_owned(),
        18,
        A,
        U256::from_u64(1_000_000_000),
    );
    let storage = Storage { contract: token };
    let mut store = Blockstore::new();
    storage.save(&mut store);
    let loaded = Storage::load(&store).unwrap();
    assert_eq!(loaded, storage.contract);
}

#[test]
fn storage_keeps_unicode_metadata() {
    let token = StandardToken::new(
        "Jeton d'été".to_owned(),
        "JÉ".to_owned(),
        6,
        B,
        U256::from_u64(42),
    );
    let storage = Storage { contract: token };
    let mut store = Blockstore::new();
    storage.save(&mut store);
    let loaded = Storage::load(&store).unwrap();
    assert_eq!(loaded.name(), "Jeton d'été".to_owned());
    assert_eq!(loaded.symbol(), "JÉ".to_owned());
    assert_eq!(loaded, storage.contract);
}

#[test]
fn load_without_genesis_fails() {
    let store = Blockstore::new();
    assert_eq!(Storage::load(&store).unwrap_err(), TokenError::StateNotFound);
    assert_eq!(balance_of(&store, A).unwrap_err(), TokenError::StateNotFound);
}

#[test]
fn decode_rejects_garbage() {
    assert!(decode(&vec![1u8, 2, 3]).is_none());
    assert!(decode(&Vec::new()).is_none());
}

#[test]
fn content_address_is_a_digest() {
    let token = StandardToken::new("FToken".to_owned(), "FT".to_owned(), 18, A, U256::from_u64(7));
    let bytes = encode(&token);
    let storage = Storage { contract: token };
    let mut store = Blockstore::new();
    let cid1 = storage.save(&mut store);
    let cid2 = storage.save(&mut store);
    assert_eq!(cid1.len(), 32);
    assert_ne!(cid1, bytes);
    assert_eq!(cid1, cid2);
}

#[test]
fn genesis_mints_whole_supply() {
    let mut store = Blockstore::new();
    let supply = geneses(&mut store, A, U256::from_u64(1_000_000_000));
    assert_eq!(supply, U256::from_u64(1_000_000_000));
    assert_eq!(balance_of(&store, A).unwrap(), U256::from_u64(1_000_000_000));
    let token = Storage::load(&store).unwrap();
    assert_eq!(token.total_supply(), U256::from_u64(1_000_000_000));
    assert_eq!(token.name(), "FToken".to_owned());
    assert_eq!(token.symbol(), "FT".to_owned());
    assert_eq!(token.decimals(), 18);
}

#[test]
fn transfer_moves_one_unit() {
    let mut store = fresh_ledger();
    let ev = transfer(&mut store, A, B, U256::from_u64(1)).unwrap();
    assert_eq!(balance_of(&store, A).unwrap(), U256::from_u64(999_999_999));
    assert_eq!(balance_of(&store, B).unwrap(), U256::from_u64(1));
    assert_eq!(ev, Transfer::new(A, B, U256::from_u64(1)));
}

#[test]
fn transfer_beyond_balance_aborts() {
    let mut store = fresh_ledger();
    let before_a = balance_of(&store, A).unwrap();
    let before_b = balance_of(&store, B).unwrap();
    let r = transfer(&mut store, A, B, U256::from_u64(2_000_000_000));
    assert_eq!(r.unwrap_err(), TokenError::InsufficientBalance);
    assert_eq!(balance_of(&store, A).unwrap(), before_a);
    assert_eq!(balance_of(&store, B).unwrap(), before_b);
}

#[test]
fn transfer_of_balance_plus_one_changes_nothing() {
    let mut store = fresh_ledger();
    let r = transfer(&mut store, A, B, U256::from_u64(1_000_000_001));
    assert_eq!(r.unwrap_err(), TokenError::InsufficientBalance);
    assert_eq!(balance_of(&store, A).unwrap(), U256::from_u64(1_000_000_000));
    assert_eq!(balance_of(&store, B).unwrap(), U256::zero());
}

#[test]
fn self_transfer_keeps_balance() {
    let mut store = fresh_ledger();
    transfer(&mut store, A, A, U256::from_u64(500)).unwrap();
    assert_eq!(balance_of(&store, A).unwrap(), U256::from_u64(1_000_000_000));
}

#[test]
fn conservation_across_transfers() {
    let mut store = fresh_ledger();
    transfer(&mut store, A, B, U256::from_u64(123)).unwrap();
    transfer(&mut store, B, C, U256::from_u64(23)).unwrap();
    let total = balance_of(&store, A)
        .unwrap()
        .add(&balance_of(&store, B).unwrap())
        .add(&balance_of(&store, C).unwrap());
    assert_eq!(total, U256::from_u64(1_000_000_000));
}

#[test]
fn approve_overwrites_not_accumulates() {
    let mut store = fresh_ledger();
    approve(&mut store, A, C, U256::from_u64(700)).unwrap();
    approve(&mut store, A, C, U256::from_u64(500)).unwrap();
    assert_eq!(allowance(&store, A, C).unwrap(), U256::from_u64(500));
}

#[test]
fn approve_emits_event() {
    let mut store = fresh_ledger();
    let ev = approve(&mut store, A, C, U256::from_u64(500)).unwrap();
    assert_eq!(ev, Approve::new(A, C, U256::from_u64(500)));
}

#[test]
fn transfer_from_spends_granted_allowance() {
    let mut store = fresh_ledger();
    approve(&mut store, A, C, U256::from_u64(500)).unwrap();
    assert_eq!(allowance(&store, A, C).unwrap(), U256::from_u64(500));
    let mut token = Storage::load(&store).unwrap();
    let r = token.transfer_from(C, A, D, &U256::from_u64(100));
    assert!(r.is_ok());
    assert_eq!(token.balance_of(D), U256::from_u64(100));
    assert_eq!(token.balance_of(A), U256::from_u64(999_999_900));
    // This design checks the allowance but does not decrement it on use.
    assert_eq!(token.allowance(A, C), U256::from_u64(500));
}

#[test]
fn transfer_from_without_grant_aborts() {
    let mut store = fresh_ledger();
    let mut token = Storage::load(&store).unwrap();
    let r = token.transfer_from(C, A, D, &U256::from_u64(100));
    assert_eq!(r.unwrap_err(), TokenError::InsufficientAllowance);
    assert_eq!(token.balance_of(A), U256::from_u64(1_000_000_000));
    assert_eq!(token.balance_of(D), U256::zero());
}

#[test]
fn transfer_from_beyond_balance_aborts() {
    let mut store = Blockstore::new();
    geneses(&mut store, A, U256::from_u64(50));
    approve(&mut store, A, C, U256::from_u64(100)).unwrap();
    let mut token = Storage::load(&store).unwrap();
    let r = token.transfer_from(C, A, D, &U256::from_u64(80));
    assert_eq!(r.unwrap_err(), TokenError::InsufficientBalance);
    assert_eq!(token.balance_of(A), U256::from_u64(50));
    assert_eq!(token.balance_of(D), U256::zero());
}

#[test]
fn failed_transfer_keeps_previous_root() {
    let mut store = fresh_ledger();
    transfer(&mut store, A, B, U256::from_u64(10)).unwrap();
    let snapshot = Storage::load(&store).unwrap();
    let r = transfer(&mut store, A, B, U256::from_u64(2_000_000_000));
    assert!(r.is_err());
    assert_eq!(Storage::load(&store).unwrap(), snapshot);
}
