use idlecoin::commands::{
    apply_command, boost_cost, boost_max_cost, buy_boost, buy_max_boost, buy_max_miner, buy_max_time,
    buy_miner, buy_time, miner_cost, miner_max_cost, process_commands, time_cost,
    time_max_cost, update_upgrade_list, CommandOverflow, Outcome, Purchase, PurchaseError, PurchaseType,
    UpgradeList,
};
use idlecoin::miner::{Miner, BOOST_MAX};
use idlecoin::wallet::{Wallet, COIN_WRAP};

fn wallet(supercoin: u64, idlecoin: u64, chronocoin: u64) -> Wallet {
    Wallet { id: 1, supercoin, idlecoin, chronocoin, randocoin: 0, max_miners: 5 }
}

fn miner(cps: u64, boost: u64) -> Miner {
    Miner { wallet_id: 1, miner_id: 2, level: 3, cps, inc: 7, pow: u64::MAX, boost }
}

fn total(w: &Wallet) -> u128 {
    w.supercoin as u128 * COIN_WRAP as u128 + w.idlecoin as u128
}

#[test]
fn boost_cost_is_the_top_power_of_two() {
    assert_eq!(boost_cost(1), 1);
    assert_eq!(boost_cost(3), 2);
    assert_eq!(boost_cost(1024), 1024);
    assert_eq!(boost_cost(1500), 1024);
    assert_eq!(boost_cost(2047), 1024);
    assert_eq!(boost_cost(2048), 2048);
    assert_eq!(boost_cost(u64::MAX), 1 << 63);
    for cps in 1..5000u64 {
        let c = boost_cost(cps);
        assert!(c.is_power_of_two() && c <= cps && cps < 2 * c);
    }
}

#[test]
fn boost_max_cost_counts_whole_bundles() {
    assert_eq!(boost_max_cost(1024, 0), 1024 * 511);
    assert_eq!(boost_max_cost(3000, 127), 2048 * 511);
    assert_eq!(boost_max_cost(3000, 128), 2048 * 510);
    assert_eq!(boost_max_cost(3000, BOOST_MAX), 0);
}

#[test]
fn miner_cost_doubles_towards_the_limit() {
    for m in 0..5 {
        assert_eq!(miner_cost(m), u64::MAX);
    }
    assert_eq!(miner_cost(5), u64::MAX / 0x100000);
    assert_eq!(miner_cost(6), u64::MAX / 0x80000);
    assert_eq!(miner_cost(12), u64::MAX / 0x2000);
    assert_eq!(miner_cost(25), u64::MAX);
}

#[test]
fn miner_max_cost_sums_to_the_limit() {
    assert_eq!(miner_max_cost(13), 0);
    assert_eq!(miner_max_cost(12), miner_cost(12) as u128);
    let sum: u128 = (5..=12).map(|m| miner_cost(m) as u128).sum();
    assert_eq!(miner_max_cost(5), sum);
    let low: u128 = (0..=12).map(|m| miner_cost(m) as u128).sum();
    assert_eq!(miner_max_cost(0), low);
}

#[test]
fn time_costs() {
    assert_eq!(time_cost(), 1000);
    assert_eq!(time_max_cost(2500), 2000);
    assert_eq!(time_max_cost(999), 0);
    assert_eq!(time_max_cost(u64::MAX), (u64::MAX / 1000) * 1000);
}

#[test]
fn buy_boost_pays_and_adds_a_bundle() {
    let mut m = miner(1500, 0);
    let mut w = wallet(0, 5000, 0);
    let r = buy_boost(&mut m, &mut w);
    assert_eq!(r, Ok((PurchaseType::Boost, Purchase { bought: 128, cost: 1024 })));
    assert_eq!(m.boost, 128);
    assert_eq!(w.idlecoin, 5000 - 1024);
}

#[test]
fn buy_boost_refusals() {
    let mut w = wallet(0, 5000, 0);
    let mut slow = miner(1023, 0);
    assert_eq!(buy_boost(&mut slow, &mut w), Err(PurchaseError::BoostNeedsCps));
    let mut full = miner(2000, BOOST_MAX - 128);
    assert_eq!(buy_boost(&mut full, &mut w), Err(PurchaseError::BoostLimit));
    let mut poor = wallet(0, 1000, 0);
    let mut m = miner(2000, 0);
    assert_eq!(buy_boost(&mut m, &mut poor), Err(PurchaseError::BoostFunds(1024)));
    assert_eq!(poor.idlecoin, 1000);
    assert_eq!(m.boost, 0);
    assert_eq!(w.idlecoin, 5000);
}

#[test]
fn buy_max_boost_costs_boost_max_cost() {
    let mut m = miner(1024, 0);
    let mut w = wallet(1, 0, 0);
    let before = total(&w);
    let r = buy_max_boost(&mut m, &mut w);
    let expected = boost_max_cost(1024, 0) as u128;
    assert_eq!(r, Some((PurchaseType::Boost, Purchase { bought: 511 * 128, cost: expected })));
    assert_eq!(m.boost, 511 * 128);
    assert_eq!(total(&w), before - expected);
}

#[test]
fn buy_max_boost_one_short_of_a_bundle() {
    let mut m = miner(1024, 127);
    let mut w = wallet(1, 0, 0);
    let r = buy_max_boost(&mut m, &mut w).unwrap();
    assert_eq!(r.1.bought, 510 * 128);
    assert_eq!(r.1.cost, 1024 * 510);
    assert_eq!(boost_max_cost(1024, 127), 1024 * 511);
}

#[test]
fn buy_max_boost_stops_when_funds_run_out() {
    let mut m = miner(1024, 0);
    let mut w = wallet(0, 3000, 0);
    let r = buy_max_boost(&mut m, &mut w).unwrap();
    assert_eq!(r.1, Purchase { bought: 256, cost: 2048 });
    assert_eq!(w.idlecoin, 3000 - 2048);
    let mut broke = wallet(0, 0, 0);
    assert_eq!(buy_max_boost(&mut m, &mut broke), Some((PurchaseType::Boost, Purchase { bought: 0, cost: 0 })));
}

#[test]
fn buy_miner_and_refusals() {
    let mut w = wallet(0, u64::MAX, 0);
    let cost = miner_cost(5);
    assert_eq!(buy_miner(&mut w), Ok((PurchaseType::Miner, Purchase { bought: 1, cost: cost as u128 })));
    assert_eq!(w.max_miners, 6);
    assert_eq!(w.idlecoin, u64::MAX - cost);
    let mut full = wallet(5, 5, 0);
    full.max_miners = 12;
    assert_eq!(buy_miner(&mut full), Err(PurchaseError::MinerLimit));
    let mut poor = wallet(0, 10, 0);
    assert_eq!(buy_miner(&mut poor), Err(PurchaseError::MinerFunds(cost)));
    assert_eq!(poor.max_miners, 5);
}

#[test]
fn buy_max_miner_stops_at_the_limit() {
    let mut w = wallet(10, 0, 0);
    let r = buy_max_miner(&mut w).unwrap();
    assert_eq!(w.max_miners, 12);
    assert_eq!(r.1.bought, 7);
    let sum: u128 = (5..12).map(|m| miner_cost(m) as u128).sum();
    assert_eq!(r.1.cost, sum);
    assert_eq!(r.1.cost, miner_max_cost(5) - miner_cost(12) as u128);
}

#[test]
fn buy_time_mines_an_hour_and_credits_the_wallet() {
    let mut m = Miner::new(1, 2);
    let mut w = wallet(0, 0, 1500);
    let r = buy_time(&mut m, &mut w);
    assert_eq!(r, Ok((PurchaseType::Chrono, Purchase { bought: 1, cost: 1000 })));
    assert_eq!(w.chronocoin, 500);
    let mut m2 = Miner::new(1, 2);
    let mut w2 = wallet(0, 0, 0);
    for _ in 0..3600 {
        idlecoin::miner::miner_session(&mut m2);
        idlecoin::miner::add_idlecoins(&mut w2, m2.cps);
    }
    assert_eq!(m, m2);
    assert_eq!(w.idlecoin, w2.idlecoin);
    assert!(w.idlecoin > 0);
    let mut poor = wallet(0, 0, 999);
    let before = m;
    assert_eq!(buy_time(&mut m, &mut poor), Err(PurchaseError::TimeFunds));
    assert_eq!(m, before);
}

#[test]
fn buy_max_time_buys_whole_hours() {
    let mut m = Miner::new(1, 2);
    let mut w = wallet(0, 0, 2500);
    let r = buy_max_time(&mut m, &mut w);
    assert_eq!(r, Some((PurchaseType::Chrono, Purchase { bought: 2, cost: 2000 })));
    assert_eq!(w.chronocoin, 500);
    assert_eq!(r.unwrap().1.cost, time_max_cost(2500) as u128);
}

#[test]
fn apply_command_ignores_other_bytes() {
    let mut m = miner(5000, 0);
    let mut w = wallet(0, 100000, 5000);
    let (m0, w0) = (m, w);
    assert_eq!(apply_command(b'x', &mut m, &mut w), Outcome::Ignored);
    assert_eq!(apply_command(b'\n', &mut m, &mut w), Outcome::Ignored);
    assert_eq!((m, w), (m0, w0));
}

#[test]
fn command_buffer_bbbmcc() {
    let mut m = Miner { wallet_id: 1, miner_id: 2, level: 0, cps: 2000, inc: 1, pow: u64::MAX, boost: 0 };
    let mut w = wallet(1, 0, 2000);
    let mut up = UpgradeList::new();
    let errors = process_commands(b"bbbmcc", &mut m, &mut w, &mut up).unwrap();
    assert!(errors.is_empty());
    assert_eq!(up.get(PurchaseType::Boost), Purchase { bought: 384, cost: 3 * 1024 });
    assert_eq!(up.get(PurchaseType::Miner), Purchase { bought: 1, cost: miner_cost(5) as u128 });
    assert_eq!(up.get(PurchaseType::Chrono), Purchase { bought: 2, cost: 2000 });
    assert_eq!(w.max_miners, 6);
    assert_eq!(w.chronocoin, 0);
    // two hours of mining used up 7200 boost seconds' worth, all 384 of them
    assert_eq!(m.boost, 0);
}

#[test]
fn refused_commands_do_not_stop_the_buffer() {
    let mut m = miner(100, 0);
    let mut w = wallet(0, 0, 1000);
    let mut up = UpgradeList::new();
    let errors = process_commands(b"bmcc", &mut m, &mut w, &mut up).unwrap();
    assert_eq!(
        errors,
        vec![PurchaseError::BoostNeedsCps, PurchaseError::MinerFunds(miner_cost(5)), PurchaseError::TimeFunds]
    );
    assert_eq!(up.get(PurchaseType::Chrono), Purchase { bought: 1, cost: 1000 });
    assert_eq!(w.chronocoin, 0);
}

#[test]
fn max_commands_in_a_buffer() {
    let mut m = miner(1024, 0);
    let mut w = wallet(3, 0, 3100);
    let mut up = UpgradeList::new();
    let errors = process_commands(b"BMC", &mut m, &mut w, &mut up).unwrap();
    assert!(errors.is_empty());
    assert_eq!(up.get(PurchaseType::Boost).bought, 511 * 128);
    assert_eq!(up.get(PurchaseType::Miner).bought, 7);
    assert_eq!(up.get(PurchaseType::Chrono), Purchase { bought: 3, cost: 3000 });
    assert_eq!(w.max_miners, 12);
    assert_eq!(w.chronocoin, 100);
}

#[test]
fn overflowing_command_stops_the_buffer_there() {
    let mut m = Miner { wallet_id: 1, miner_id: 2, level: 1, cps: 0, inc: u64::MAX, pow: u64::MAX, boost: 0 };
    let mut w = wallet(0, 0, 1000);
    let mut up = UpgradeList::new();
    let (m0, w0) = (m, w);
    assert_eq!(process_commands(b"bc", &mut m, &mut w, &mut up), Err(CommandOverflow { at: 1 }));
    assert_eq!((m, w, up), (m0, w0, UpgradeList::new()));
    let mut rich = wallet(5, 0, 1000);
    assert_eq!(process_commands(b"mcm", &mut m, &mut rich, &mut up), Err(CommandOverflow { at: 1 }));
    assert_eq!(rich.max_miners, 6);
    assert_eq!(rich.chronocoin, 1000);
    assert_eq!(up.get(PurchaseType::Miner).bought, 1);
    assert_eq!(m, m0);
}

#[test]
fn upgrade_list_sums_by_kind() {
    let mut up = UpgradeList::new();
    update_upgrade_list(&mut up, PurchaseType::Boost, Purchase { bought: 128, cost: 1024 });
    update_upgrade_list(&mut up, PurchaseType::Boost, Purchase { bought: 128, cost: 2048 });
    update_upgrade_list(&mut up, PurchaseType::Miner, Purchase { bought: 1, cost: 5 });
    assert_eq!(up.get(PurchaseType::Boost), Purchase { bought: 256, cost: 3072 });
    assert_eq!(up.get(PurchaseType::Miner), Purchase { bought: 1, cost: 5 });
    assert_eq!(up.get(PurchaseType::Chrono), Purchase::new());
    let mut tally_full = UpgradeList::new();
    tally_full.boost = Purchase { bought: u64::MAX, cost: 0 };
    let mut m = miner(2048, 0);
    let mut w = wallet(0, 10000, 0);
    let (m0, w0, t0) = (m, w, tally_full);
    assert_eq!(process_commands(b"b", &mut m, &mut w, &mut tally_full), Err(CommandOverflow { at: 0 }));
    assert_eq!((m, w, tally_full), (m0, w0, t0));
}

#[test]
fn purchase_add_assign() {
    let mut p = Purchase::new();
    p.add_assign(Purchase { bought: 2, cost: 30 });
    p.add_assign(Purchase { bought: 1, cost: 12 });
    assert_eq!(p, Purchase { bought: 3, cost: 42 });
}

#[test]
fn licences_never_pass_the_limit() {
    let mut w = wallet(100, 0, 0);
    w.max_miners = 12;
    let before = w;
    assert_eq!(buy_max_miner(&mut w), Some((PurchaseType::Miner, Purchase { bought: 0, cost: 0 })));
    assert_eq!(w, before);
    let mut low = wallet(100, 0, 0);
    low.max_miners = 0;
    buy_max_miner(&mut low);
    assert_eq!(low.max_miners, 12);
}
