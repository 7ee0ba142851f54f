use idlecoin::miner::{add_idlecoins, sub_idlecoins};
use idlecoin::wallet::{InsufficientFunds, Wallet, COIN_WRAP};

fn total(w: &Wallet) -> u128 {
    w.supercoin as u128 * COIN_WRAP as u128 + w.idlecoin as u128
}

fn wallet(supercoin: u64, idlecoin: u64) -> Wallet {
    Wallet { id: 7, supercoin, idlecoin, chronocoin: 0, randocoin: 0, max_miners: 5 }
}

#[test]
fn new_wallet_starts_empty_with_five_licences() {
    let w = Wallet::new(0xabcd);
    assert_eq!(w, Wallet { id: 0xabcd, supercoin: 0, idlecoin: 0, chronocoin: 0, randocoin: 0, max_miners: 5 });
}

#[test]
fn add_idlecoins_plain() {
    let mut w = wallet(0, 10);
    add_idlecoins(&mut w, 32);
    assert_eq!(w.idlecoin, 42);
    assert_eq!(w.supercoin, 0);
}

#[test]
fn add_idlecoins_overflow_carries_a_supercoin() {
    let mut w = wallet(3, u64::MAX - 1);
    add_idlecoins(&mut w, 5);
    // (2^64 - 2 + 5) mod (2^64 - 1) = 4
    assert_eq!(w.idlecoin, 4);
    assert_eq!(w.supercoin, 4);
    assert_eq!(total(&w), total(&wallet(3, u64::MAX - 1)) + 5);
}

#[test]
fn add_idlecoins_both_at_max_loses_a_wrap() {
    let mut w = wallet(0, u64::MAX);
    add_idlecoins(&mut w, u64::MAX);
    assert_eq!(w.idlecoin, 0);
    assert_eq!(w.supercoin, 1);
    assert_eq!(total(&w), COIN_WRAP as u128);
}

#[test]
fn add_idlecoins_supercoin_saturates() {
    let mut w = wallet(u64::MAX, u64::MAX);
    add_idlecoins(&mut w, 2);
    assert_eq!(w.supercoin, u64::MAX);
    // (2^64 - 1 + 2) mod (2^64 - 1) = 2
    assert_eq!(w.idlecoin, 2);
}

#[test]
fn sub_idlecoins_plain() {
    let mut w = wallet(0, 100);
    sub_idlecoins(&mut w, 40);
    assert_eq!(w.idlecoin, 60);
}

#[test]
fn sub_idlecoins_borrows_a_supercoin() {
    let mut w = wallet(2, 5);
    sub_idlecoins(&mut w, 10);
    assert_eq!(w.supercoin, 1);
    assert_eq!(w.idlecoin, u64::MAX - 10 + 5);
    assert_eq!(total(&w), total(&wallet(2, 5)) - 10);
}

#[test]
fn sub_idlecoins_without_supercoin_empties() {
    let mut w = wallet(0, 5);
    sub_idlecoins(&mut w, 10);
    assert_eq!(w.idlecoin, 0);
    assert_eq!(w.supercoin, 0);
}

#[test]
fn credit_then_spend_keeps_the_total() {
    let start = wallet(1, u64::MAX - 3);
    let mut w = start;
    add_idlecoins(&mut w, 1000);
    sub_idlecoins(&mut w, 1000);
    assert_eq!(total(&w), total(&start));
}

#[test]
fn wallet_sub_idlecoins_ok_and_err() {
    let mut w = wallet(0, 100);
    assert_eq!(w.sub_idlecoins(100), Ok(()));
    assert_eq!(w.idlecoin, 0);
    let before = w;
    assert_eq!(w.sub_idlecoins(1), Err(InsufficientFunds));
    assert_eq!(w, before);
    let mut rich = wallet(1, 0);
    assert_eq!(rich.sub_idlecoins(10), Ok(()));
    assert_eq!(rich.supercoin, 0);
    assert_eq!(rich.idlecoin, u64::MAX - 10);
}

#[test]
fn wallet_sub_chronocoins() {
    let mut w = wallet(0, 0);
    w.chronocoin = 1500;
    assert_eq!(w.sub_chronocoins(1000), Ok(()));
    assert_eq!(w.chronocoin, 500);
    assert_eq!(w.sub_chronocoins(1000), Err(InsufficientFunds));
    assert_eq!(w.chronocoin, 500);
}

#[test]
fn chrono_and_rando_increments_saturate() {
    let mut w = wallet(0, 0);
    w.inc_chronocoins();
    assert_eq!(w.chronocoin, 1);
    w.chronocoin = u64::MAX;
    w.inc_chronocoins();
    assert_eq!(w.chronocoin, u64::MAX);
    w.inc_randocoins();
    assert_eq!(w.randocoin, 16);
    w.randocoin = u64::MAX - 3;
    w.inc_randocoins();
    assert_eq!(w.randocoin, u64::MAX);
}
