use idlecoin::miner::{
    apply_roll, audit_wallet, credit_wallets, dec_level, inc_level, miner_session, process_miner,
    process_miners, roll_miner, run_sessions, session_would_fit, sessions_would_fit, Miner, MinerEvent, SessionOverflow,
};
use idlecoin::wallet::Wallet;

fn wallet(id: u64, idlecoin: u64) -> Wallet {
    Wallet { id, supercoin: 0, idlecoin, chronocoin: 0, randocoin: 0, max_miners: 5 }
}

#[test]
fn new_miner() {
    let m = Miner::new(9, 0x1234);
    assert_eq!(m, Miner { wallet_id: 9, miner_id: 0x1234, level: 0, cps: 0, inc: 1, pow: 10, boost: 0 });
}

#[test]
fn first_session_adds_the_increase() {
    let mut m = Miner::new(1, 1);
    miner_session(&mut m);
    assert_eq!(m.cps, 1);
    assert_eq!(m.level, 0);
}

#[test]
fn session_levels_up_at_the_mark() {
    let mut m = Miner { wallet_id: 1, miner_id: 1, level: 0, cps: 10, inc: 1, pow: 10, boost: 0 };
    miner_session(&mut m);
    assert_eq!(m.level, 1);
    assert_eq!(m.inc, 2);
    assert_eq!(m.pow, 100);
    assert_eq!(m.cps, 10 + 2 + 1);
}

#[test]
fn boost_triples_the_increase() {
    let mut m = Miner { wallet_id: 1, miner_id: 1, level: 2, cps: 5, inc: 4, pow: 1000, boost: 2 };
    miner_session(&mut m);
    assert_eq!(m.cps, 5 + 3 * 6);
    assert_eq!(m.boost, 1);
    miner_session(&mut m);
    assert_eq!(m.boost, 0);
    miner_session(&mut m);
    assert_eq!(m.cps, 5 + 3 * 6 + 3 * 6 + 6);
    assert_eq!(m.boost, 0);
}

#[test]
fn level_changes_saturate() {
    let mut m = Miner { wallet_id: 1, miner_id: 1, level: 0, cps: 0, inc: 1, pow: 5, boost: 0 };
    dec_level(&mut m);
    assert_eq!(m.level, 0);
    assert_eq!(m.inc, 1);
    assert_eq!(m.pow, 0);
    let mut big = Miner { wallet_id: 1, miner_id: 1, level: 3, cps: 0, inc: 10, pow: u64::MAX / 5, boost: 0 };
    inc_level(&mut big);
    assert_eq!(big.level, 4);
    assert_eq!(big.inc, 14);
    assert_eq!(big.pow, u64::MAX);
}

#[test]
fn sessions_never_lower_cps_or_level() {
    let mut m = Miner::new(1, 2);
    let mut prev = m;
    for _ in 0..500 {
        miner_session(&mut m);
        assert!(m.cps >= prev.cps);
        assert!(m.level >= prev.level);
        prev = m;
    }
    let mut n = Miner::new(1, 2);
    run_sessions(&mut n, 500);
    assert_eq!(n, m);
}

#[test]
fn overflowing_session_is_detected() {
    let m = Miner { wallet_id: 1, miner_id: 1, level: 1, cps: 0, inc: u64::MAX, pow: 10, boost: 0 };
    assert!(!session_would_fit(&m));
    let boosted = Miner { wallet_id: 1, miner_id: 1, level: 0, cps: 0, inc: u64::MAX / 2, pow: 10, boost: 1 };
    assert!(!session_would_fit(&boosted));
    assert!(session_would_fit(&Miner::new(1, 1)));
    assert!(sessions_would_fit(&Miner::new(1, 1), 3600));
}

#[test]
fn process_miner_credits_its_wallets() {
    let mut m = Miner::new(5, 1);
    let mut ws = vec![wallet(5, 10), wallet(6, 10), wallet(5, 0)];
    assert_eq!(process_miner(&mut m, &mut ws), Ok(()));
    assert_eq!(m.cps, 1);
    assert_eq!(ws[0].idlecoin, 11);
    assert_eq!(ws[1].idlecoin, 10);
    assert_eq!(ws[2].idlecoin, 1);
}

#[test]
fn process_miner_refuses_an_overflow() {
    let mut m = Miner { wallet_id: 5, miner_id: 1, level: 1, cps: 0, inc: u64::MAX, pow: 10, boost: 0 };
    let before = m;
    let mut ws = vec![wallet(5, 10)];
    assert_eq!(process_miner(&mut m, &mut ws), Err(SessionOverflow));
    assert_eq!(m, before);
    assert_eq!(ws[0].idlecoin, 10);
}

#[test]
fn credit_wallets_only_matching() {
    let mut ws = vec![wallet(1, 0), wallet(2, 0)];
    credit_wallets(&mut ws, 2, 99);
    assert_eq!(ws[0].idlecoin, 0);
    assert_eq!(ws[1].idlecoin, 99);
}

#[test]
fn audit_takes_a_tenth() {
    let mut w = Wallet { id: 1, supercoin: 25, idlecoin: 1005, chronocoin: 3, randocoin: 4, max_miners: 6 };
    audit_wallet(&mut w);
    assert_eq!(w.supercoin, 23);
    assert_eq!(w.idlecoin, 905);
    assert_eq!(w.chronocoin, 3);
}

#[test]
fn roll_audit_taxes_every_wallet_of_the_miner() {
    let mut m = Miner::new(3, 1);
    let mut ws = vec![wallet(3, 100), wallet(4, 100), wallet(3, 50)];
    let events = apply_roll(0, &mut m, &mut ws);
    assert_eq!(events, vec![MinerEvent::Taxed, MinerEvent::Taxed]);
    assert_eq!(ws[0].idlecoin, 90);
    assert_eq!(ws[1].idlecoin, 100);
    assert_eq!(ws[2].idlecoin, 45);
    let events = apply_roll(15552000 * 3, &mut m, &mut ws);
    assert_eq!(events.len(), 2);
}

#[test]
fn roll_level_down_and_up() {
    let mut ws = vec![];
    let mut m = Miner { wallet_id: 3, miner_id: 1, level: 2, cps: 0, inc: 5, pow: 1000, boost: 0 };
    assert_eq!(apply_roll(10000, &mut m, &mut ws), vec![MinerEvent::LostLevel]);
    assert_eq!(m.level, 1);
    assert_eq!(m.inc, 4);
    assert_eq!(m.pow, 100);
    assert_eq!(apply_roll(20001, &mut m, &mut ws), vec![MinerEvent::LeveledUp]);
    assert_eq!(m.level, 2);
    assert_eq!(apply_roll(30002, &mut m, &mut ws), vec![MinerEvent::LeveledUp]);
    assert_eq!(m.level, 3);
    let mut bottom = Miner::new(3, 2);
    assert_eq!(apply_roll(10000, &mut bottom, &mut ws), vec![]);
}

#[test]
fn roll_cps_boost_and_quiet() {
    let mut ws = vec![];
    let mut m = Miner { wallet_id: 3, miner_id: 1, level: 0, cps: 1000, inc: 1, pow: 10, boost: 0 };
    assert_eq!(apply_roll(3, &mut m, &mut ws), vec![MinerEvent::CpsBoost]);
    assert_eq!(m.cps, 1100);
    let before = m;
    assert_eq!(apply_roll(4, &mut m, &mut ws), vec![]);
    assert_eq!(apply_roll(9999, &mut m, &mut ws), vec![]);
    assert_eq!(m, before);
}

#[test]
fn random_rolls_are_mostly_quiet() {
    let mut ws = vec![wallet(3, 1000)];
    let mut quiet = 0;
    for _ in 0..200 {
        let mut m = Miner { wallet_id: 3, miner_id: 1, level: 5, cps: 1000, inc: 20, pow: 100000, boost: 0 };
        let r = roll_miner(&mut m, &mut ws);
        match r {
            Ok(events) => {
                if events.is_empty() {
                    quiet += 1;
                }
            },
            Err(_) => panic!("no overflow is possible here"),
        }
    }
    assert!(quiet > 150);
}

#[test]
fn process_miners_mines_each_and_credits_the_sums() {
    let mut ms = vec![Miner::new(5, 1), Miner::new(6, 2), Miner { wallet_id: 5, miner_id: 3, level: 1, cps: 20, inc: 2, pow: 1000, boost: 0 }];
    let mut ws = vec![wallet(5, 100), wallet(6, 0), wallet(7, 0)];
    assert_eq!(process_miners(&mut ms, &mut ws), Ok(()));
    assert_eq!(ms[0].cps, 1);
    assert_eq!(ms[1].cps, 1);
    assert_eq!(ms[2].cps, 23);
    assert_eq!(ws[0].idlecoin, 100 + 1 + 23);
    assert_eq!(ws[1].idlecoin, 1);
    assert_eq!(ws[2].idlecoin, 0);
}

#[test]
fn process_miners_refuses_an_overflow() {
    let bad = Miner { wallet_id: 5, miner_id: 1, level: 1, cps: 0, inc: u64::MAX, pow: 10, boost: 0 };
    let mut ms = vec![Miner::new(5, 2), bad];
    let mut ws = vec![wallet(5, 100)];
    assert_eq!(process_miners(&mut ms, &mut ws), Err(SessionOverflow));
    assert_eq!(ms, vec![Miner::new(5, 2), bad]);
    assert_eq!(ws[0].idlecoin, 100);
}
