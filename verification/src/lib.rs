pub mod codec;
pub mod frc20;
pub mod standard_token;
pub mod storage;
pub mod types;
pub mod u256;

use crate::frc20::{pair_key, slookup, sset, xfer_model, LedgerModel, TokenError, FRC20};
use crate::standard_token::StandardToken;
use crate::storage::{load_spec, save_spec, Blockstore, Storage, StoreModel};
use crate::types::{Approve, Transfer};
use crate::u256::U256;
use vstd::prelude::*;

verus! {

/// The state the genesis call persists: the fixed token metadata, and the
/// whole supply on the creating caller's balance.
pub open spec fn genesis_model(caller: u64, supply: nat) -> LedgerModel {
    LedgerModel {
        name: "FToken"@,
        symbol: "FT"@,
        decimals: 18,
        total_supply: supply,
        balances: seq![(caller as u128, supply)],
        allowances: Seq::<(u128, nat)>::empty(),
    }
}

/// Creates the ledger, persists it, and returns the total supply. Each call
/// starts the ledger over; nothing guards against a second genesis.
pub fn geneses(store: &mut Blockstore, caller: u64, initial_supply: U256) -> (r: U256)
    requires
        initial_supply.wf(),
    ensures
        r.wf(),
        r@ == initial_supply@,
        final(store)@ == save_spec(old(store)@, genesis_model(caller, initial_supply@)),
        load_spec(final(store)@) == Ok::<LedgerModel, TokenError>(
            genesis_model(caller, initial_supply@),
        ),
        crate::frc20::conserves_model(genesis_model(caller, initial_supply@)),
{
    let supply_out = initial_supply.clone();
    let erc20 = StandardToken::new("FToken".to_owned(), "FT".to_owned(), 18, caller, initial_supply);
    proof {
        assert(erc20@ =~= genesis_model(caller, supply_out@));
    }
    let storage = Storage { contract: erc20 };
    storage.save(store);
    supply_out
}

/// What one transfer call leaves in the store: the moved balances saved
/// under a new root on success, the store untouched on any failure.
pub open spec fn transfer_post(pre: StoreModel, caller: u64, to: u64, v: nat) -> StoreModel {
    match load_spec(pre) {
        Ok(m) => if v <= slookup(m.balances, caller as u128) {
            save_spec(
                pre,
                LedgerModel {
                    balances: xfer_model(m.balances, caller as u128, to as u128, v),
                    ..m
                },
            )
        } else {
            pre
        },
        Err(_) => pre,
    }
}

/// What one transfer call returns: success exactly when the state loads and
/// the caller's balance covers the value.
pub open spec fn transfer_outcome(pre: StoreModel, caller: u64, v: nat) -> Result<
    (),
    TokenError,
> {
    match load_spec(pre) {
        Ok(m) => if v <= slookup(m.balances, caller as u128) {
            Ok(())
        } else {
            Err(TokenError::InsufficientBalance)
        },
        Err(e) => Err(e),
    }
}

/// Loads the ledger, moves `value` from the caller to `to`, and saves the
/// result; a failed call leaves the previous root current. Returns the
/// transfer event.
#[verifier::rlimit(100)]
pub fn transfer(store: &mut Blockstore, caller: u64, to: u64, value: U256) -> (r: Result<
    Transfer,
    TokenError,
>)
    requires
        value.wf(),
    ensures
        final(store)@ == transfer_post(old(store)@, caller, to, value@),
        (match r {
            Ok(ev) => ({
                &&& transfer_outcome(old(store)@, caller, value@) == Ok::<(), TokenError>(())
                &&& ev.spec_from() == caller
                &&& ev.spec_to() == to
                &&& ev.spec_value() == value@
                &&& ev.wf()
            }),
            Err(e) => transfer_outcome(old(store)@, caller, value@) == Err::<(), TokenError>(e),
        }),
{
    match Storage::load(store) {
        Err(e) => Err(e),
        Ok(t) => {
            let mut t = t;
            match t.transfer(caller, to, &value) {
                Err(e) => Err(e),
                Ok(_) => {
                    let storage = Storage { contract: t };
                    storage.save(store);
                    proof {
                        let pre = old(store)@;
                        let m = load_spec(pre)->Ok_0;
                        assert(load_spec(pre) == Ok::<LedgerModel, TokenError>(m));
                        assert(value@ <= slookup(m.balances, caller as u128));
                        assert(storage.contract@ == (LedgerModel {
                            balances: xfer_model(m.balances, caller as u128, to as u128, value@),
                            ..m
                        }));
                        assert(store@ == save_spec(pre, storage.contract@));
                        assert(store@ == transfer_post(pre, caller, to, value@));
                    }
                    Ok(Transfer::new(caller, to, value))
                },
            }
        },
    }
}

/// What one approve call leaves in the store: the overwritten allowance
/// saved under a new root, or the store untouched when no state loads.
pub open spec fn approve_post(pre: StoreModel, caller: u64, spender: u64, v: nat) -> StoreModel {
    match load_spec(pre) {
        Ok(m) => save_spec(
            pre,
            LedgerModel { allowances: sset(m.allowances, pair_key(caller, spender), v), ..m },
        ),
        Err(_) => pre,
    }
}

/// Loads the ledger, sets the allowance the caller grants `spender` —
/// overwriting, not accumulating — and saves the result. Returns the
/// approval event.
pub fn approve(store: &mut Blockstore, caller: u64, spender: u64, value: U256) -> (r: Result<
    Approve,
    TokenError,
>)
    requires
        value.wf(),
    ensures
        final(store)@ == approve_post(old(store)@, caller, spender, value@),
        (match r {
            Ok(ev) => ({
                &&& load_spec(old(store)@) is Ok
                &&& ev.spec_owner() == caller
                &&& ev.spec_spend() == spender
                &&& ev.spec_value() == value@
                &&& ev.wf()
            }),
            Err(e) => load_spec(old(store)@) == Err::<LedgerModel, TokenError>(e),
        }),
{
    match Storage::load(store) {
        Err(e) => Err(e),
        Ok(t) => {
            let mut t = t;
            t.approve(caller, spender, &value);
            let storage = Storage { contract: t };
            storage.save(store);
            Ok(Approve::new(caller, spender, value))
        },
    }
}

/// Loads the ledger and returns the balance of `owner`; absence means zero.
/// The store is read, never written.
pub fn balance_of(store: &Blockstore, owner: u64) -> (r: Result<U256, TokenError>)
    ensures
        (match r {
            Ok(a) => ({
                &&& load_spec(store@) is Ok
                &&& a.wf()
                &&& a@ == slookup(load_spec(store@)->Ok_0.balances, owner as u128)
            }),
            Err(e) => load_spec(store@) == Err::<LedgerModel, TokenError>(e),
        }),
{
    match Storage::load(store) {
        Err(e) => Err(e),
        Ok(t) => Ok(t.balance_of(owner)),
    }
}

/// Loads the ledger and returns the allowance `owner` granted `spender`;
/// absence at either level means zero. The store is read, never written.
pub fn allowance(store: &Blockstore, owner: u64, spender: u64) -> (r: Result<U256, TokenError>)
    ensures
        (match r {
            Ok(a) => ({
                &&& load_spec(store@) is Ok
                &&& a.wf()
                &&& a@ == slookup(
                    load_spec(store@)->Ok_0.allowances,
                    pair_key(owner, spender),
                )
            }),
            Err(e) => load_spec(store@) == Err::<LedgerModel, TokenError>(e),
        }),
{
    match Storage::load(store) {
        Err(e) => Err(e),
        Ok(t) => Ok(t.allowance(owner, spender)),
    }
}

} // verus!
