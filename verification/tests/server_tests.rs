use idlecoin::login::{
    draw_miner_id, is_banned, login_allowed, normalize_login, register_wallet, wallet_id_from_login, BANNED_WALLET,
    LOGIN_BUF,
};
use idlecoin::miner::Miner;
use idlecoin::server::{
    award_randocoins, cap_events, increment_chrono, increment_rando, live_wallets, pick_winner, push_unique,
    rank_wallets, record_event, remove_failed, trim_updates, update_offers, Offer, OfferOverflow,
};
use idlecoin::commands::{boost_cost, boost_max_cost, miner_cost};
use idlecoin::server::{contains_id, contains_index, fortune_lt, purchase_notices, autosave_tick, AUTOSAVE};
use idlecoin::commands::{Purchase, PurchaseType, UpgradeList};
use idlecoin::login::{admit_login, miner_id_from_draw, LoginRefusal};
use idlecoin::server::{scoreboard, ScoreLine};
use idlecoin::wallet::Wallet;

fn wallet(id: u64, supercoin: u64, idlecoin: u64) -> Wallet {
    Wallet { id, supercoin, idlecoin, chronocoin: 0, randocoin: 0, max_miners: 5 }
}

fn reference_id(name: &[u8]) -> u64 {
    let mut buf = [0u8; 1024];
    buf[..name.len()].copy_from_slice(name);
    for i in 0..name.len() {
        if buf[i] == b'\r' && buf[i + 1] == b'\n' {
            buf[i] = b'\n';
            buf[i + 1] = 0;
        }
    }
    xxhash_rust::xxh3::xxh3_64(&buf)
}

#[test]
fn wallet_id_is_the_hash_of_the_login_buffer() {
    let id = wallet_id_from_login(b"alice\n");
    assert_eq!(id, reference_id(b"alice\n"));
    assert_ne!(wallet_id_from_login(b"alice\n"), wallet_id_from_login(b"bob\n"));
    assert_ne!(id, 0);
}

#[test]
fn telnet_and_netcat_logins_share_a_wallet() {
    assert_eq!(wallet_id_from_login(b"alice\r\n"), wallet_id_from_login(b"alice\n"));
    assert_ne!(wallet_id_from_login(b"alice\r\r\n"), wallet_id_from_login(b"alice\r\n"));
}

#[test]
fn normalize_turns_crlf_into_lf_and_zero() {
    let mut buf = vec![0u8; 8];
    buf[..5].copy_from_slice(b"a\r\nb\r");
    buf[5] = b'\n';
    normalize_login(&mut buf, 5);
    assert_eq!(buf, vec![b'a', b'\n', 0, b'b', b'\n', 0, 0, 0]);
    let mut tail = vec![b'x', b'\r', b'\n', 0];
    normalize_login(&mut tail, 1);
    assert_eq!(tail, vec![b'x', b'\r', b'\n', 0]);
    assert_eq!(LOGIN_BUF, 1024);
}

#[test]
fn banned_wallet() {
    assert!(is_banned(BANNED_WALLET));
    assert!(is_banned(0xe492ba332d614d88));
    assert!(!is_banned(1));
}

#[test]
fn register_finds_or_opens_a_wallet() {
    let mut ws = vec![wallet(1, 0, 0)];
    ws[0].max_miners = 9;
    assert_eq!(register_wallet(&mut ws, 1), 9);
    assert_eq!(ws.len(), 1);
    assert_eq!(register_wallet(&mut ws, 2), 5);
    assert_eq!(ws.len(), 2);
    assert_eq!(ws[1], Wallet::new(2));
}

#[test]
fn login_limit_counts_connected_miners() {
    let connected = vec![1, 2, 1, 1];
    assert!(!login_allowed(&connected, 1, 3));
    assert!(login_allowed(&connected, 1, 4));
    assert!(login_allowed(&connected, 3, 1));
    assert!(!login_allowed(&connected, 3, 0));
}

#[test]
fn drawn_miner_ids_are_fresh() {
    assert!(draw_miner_id(&vec![]).is_some());
    let taken = vec![1u32, 2, 3];
    for _ in 0..100 {
        if let Some(id) = draw_miner_id(&taken) {
            assert!(!taken.contains(&id));
        }
    }
}

#[test]
fn chronocoins_for_live_wallets() {
    let mut ws = vec![wallet(1, 0, 0), wallet(2, 0, 0), wallet(3, 0, 0)];
    ws[2].chronocoin = u64::MAX;
    increment_chrono(&vec![1, 3, 1], &mut ws);
    assert_eq!(ws[0].chronocoin, 1);
    assert_eq!(ws[1].chronocoin, 0);
    assert_eq!(ws[2].chronocoin, u64::MAX);
}

#[test]
fn live_wallets_are_distinct_in_first_order() {
    assert_eq!(live_wallets(&vec![5, 3, 5, 7, 3]), vec![5, 3, 7]);
    assert_eq!(live_wallets(&vec![]), Vec::<u64>::new());
}

#[test]
fn randocoin_draw() {
    let mut ws = vec![wallet(1, 0, 0), wallet(2, 0, 0)];
    assert_eq!(increment_rando(&vec![], &mut ws), None);
    assert_eq!(ws[0].randocoin, 0);
    assert_eq!(increment_rando(&vec![2, 2], &mut ws), Some(2));
    assert_eq!(ws[1].randocoin, 16);
    assert_eq!(ws[0].randocoin, 0);
    let w = increment_rando(&vec![1, 2], &mut ws).unwrap();
    assert!(w == 1 || w == 2);
    assert_eq!(pick_winner(&vec![4, 5, 6], 7), 5);
    award_randocoins(&mut ws, 1);
    assert!(ws[0].randocoin >= 16);
}

#[test]
fn ranking_sorts_by_supercoin_then_idlecoin_stably() {
    let ws = vec![wallet(1, 1, 5), wallet(2, 0, 9), wallet(3, 1, 5), wallet(4, 0, 1), wallet(5, 2, 0)];
    assert_eq!(rank_wallets(&ws), vec![3, 1, 0, 2, 4]);
    assert_eq!(rank_wallets(&vec![]), Vec::<usize>::new());
}

#[test]
fn offers_for_a_rich_wallet() {
    let mut w = wallet(1, 2, 5000);
    w.chronocoin = 2500;
    let m = Miner { wallet_id: 1, miner_id: 1, level: 0, cps: 2000, inc: 1, pow: 10, boost: 0 };
    let mut offers = vec![Offer::Header, Offer::Header];
    assert_eq!(update_offers(&mut offers, &w, &m), Ok(()));
    assert_eq!(
        offers,
        vec![
            Offer::Header,
            Offer::Boost { cost: boost_cost(2000), max_cost: boost_max_cost(2000, 0) },
            Offer::Miner { cost: miner_cost(5) },
            Offer::Time { cost: 1000, max_cost: 2000 },
        ]
    );
}

#[test]
fn offers_for_a_poor_wallet_list_time_travel_once() {
    let mut w = wallet(1, 0, 10);
    w.chronocoin = 1001;
    let m = Miner::new(1, 1);
    let mut offers = vec![Offer::Header, Offer::Miner { cost: 5 }];
    update_offers(&mut offers, &w, &m).unwrap();
    update_offers(&mut offers, &w, &m).unwrap();
    assert_eq!(offers, vec![Offer::Time { cost: 1000, max_cost: 1000 }]);
    w.chronocoin = 1000;
    update_offers(&mut offers, &w, &m).unwrap();
    assert!(offers.is_empty());
}

#[test]
fn rich_menu_is_rebuilt_the_same() {
    let mut w = wallet(1, 2, 5000);
    w.chronocoin = 3000;
    let m = Miner { wallet_id: 1, miner_id: 1, level: 0, cps: 2000, inc: 1, pow: 10, boost: 0 };
    let mut offers = vec![];
    update_offers(&mut offers, &w, &m).unwrap();
    let first = offers.clone();
    update_offers(&mut offers, &w, &m).unwrap();
    assert_eq!(offers, first);
    assert_eq!(offers.len(), 4);
}

#[test]
fn purchase_notices_skip_free_kinds() {
    let mut up = UpgradeList::new();
    assert!(purchase_notices(&up).is_empty());
    up.chrono = Purchase { bought: 2, cost: 2000 };
    up.boost = Purchase { bought: 0, cost: 0 };
    up.miner = Purchase { bought: 1, cost: 7 };
    assert_eq!(
        purchase_notices(&up),
        vec![(PurchaseType::Miner, Purchase { bought: 1, cost: 7 }), (PurchaseType::Chrono, Purchase { bought: 2, cost: 2000 })]
    );
}

#[test]
fn autosave_every_300_ticks() {
    let mut counter = AUTOSAVE;
    let mut due = 0;
    for tick in 1..=900 {
        let (c, save) = autosave_tick(counter);
        counter = c;
        if save {
            due += 1;
            assert_eq!(tick % 300, 0);
        }
    }
    assert_eq!(due, 3);
    assert_eq!(autosave_tick(1), (300, true));
    assert_eq!(autosave_tick(2), (1, false));
}

#[test]
fn miner_id_from_a_draw() {
    assert_eq!(miner_id_from_draw(0x1_0000_0005, &vec![]), Some(5));
    assert_eq!(miner_id_from_draw(0x1_0000_0005, &vec![5]), None);
    assert_eq!(miner_id_from_draw(6, &vec![5, 7]), Some(6));
    assert_eq!(miner_id_from_draw(u64::MAX, &vec![1]), Some(u32::MAX));
}

#[test]
fn offers_that_would_overflow() {
    let mut w = wallet(1, 5, 0);
    w.max_miners = 30;
    let m = Miner::new(1, 1);
    let mut offers = vec![Offer::Header];
    assert_eq!(update_offers(&mut offers, &w, &m), Err(OfferOverflow));
    assert_eq!(offers, vec![Offer::Header]);
    let w2 = wallet(1, 5, 0);
    let fast = Miner { wallet_id: 1, miner_id: 1, level: 0, cps: u64::MAX, inc: 1, pow: 10, boost: 0 };
    assert_eq!(update_offers(&mut offers, &w2, &fast), Err(OfferOverflow));
}

#[test]
fn events_newest_first_at_most_five() {
    let mut events: Vec<String> = vec![];
    for i in 0..8 {
        record_event(&mut events, format!("e{}", i));
        cap_events(&mut events);
    }
    assert_eq!(events, vec!["e7", "e6", "e5", "e4", "e3"]);
}

#[test]
fn updates_push_unique_and_trim() {
    let mut updates = vec!["hello".to_string()];
    push_unique(&mut updates, "a".to_string());
    push_unique(&mut updates, "a".to_string());
    push_unique(&mut updates, "b".to_string());
    assert_eq!(updates, vec!["hello", "a", "b"]);
    trim_updates(&mut updates);
    assert_eq!(updates, vec!["hello"]);
    let mut empty: Vec<String> = vec![];
    trim_updates(&mut empty);
    assert!(empty.is_empty());
}

#[test]
fn failed_connections_are_removed() {
    let mut items = vec!['a', 'b', 'c', 'd', 'e'];
    remove_failed(&mut items, &vec![1, 3]);
    assert_eq!(items, vec!['a', 'c', 'e']);
    remove_failed(&mut items, &vec![]);
    assert_eq!(items, vec!['a', 'c', 'e']);
}

#[test]
fn small_helpers() {
    assert!(contains_id(&vec![1, 2, 3], 2));
    assert!(!contains_id(&vec![1, 2, 3], 4));
    assert!(contains_index(&vec![0, 5], 5));
    assert!(!contains_index(&vec![], 0));
    assert!(fortune_lt(&wallet(1, 0, 9), &wallet(2, 1, 0)));
    assert!(fortune_lt(&wallet(1, 1, 2), &wallet(2, 1, 3)));
    assert!(!fortune_lt(&wallet(1, 1, 3), &wallet(2, 1, 3)));
}

#[test]
fn admit_login_registers_then_checks_the_limit() {
    let mut ws: Vec<Wallet> = vec![];
    let id = wallet_id_from_login(b"carol\n");
    assert_eq!(admit_login(b"carol\n", &mut ws, &vec![]), Ok(id));
    assert_eq!(ws, vec![Wallet::new(id)]);
    let connected = vec![id; 5];
    assert_eq!(
        admit_login(b"carol\r\n", &mut ws, &connected),
        Err(LoginRefusal::TooManyMiners { wallet_id: id, max_miners: 5 })
    );
    assert_eq!(ws.len(), 1);
    let mut fresh: Vec<Wallet> = vec![];
    let other = wallet_id_from_login(b"dave\n");
    assert_eq!(
        admit_login(b"dave\n", &mut fresh, &vec![other; 5]),
        Err(LoginRefusal::TooManyMiners { wallet_id: other, max_miners: 5 })
    );
    assert_eq!(fresh, vec![Wallet::new(other)]);
}

#[test]
fn scoreboard_shows_wallets_with_miners() {
    let ws = vec![wallet(1, 1, 5), wallet(2, 0, 9), wallet(3, 0, 1)];
    let order = rank_wallets(&ws);
    assert_eq!(order, vec![2, 1, 0]);
    let mut a = Miner::new(1, 10);
    a.cps = 7;
    let mut b = Miner::new(3, 11);
    b.cps = u64::MAX;
    let mut c = Miner::new(3, 12);
    c.cps = u64::MAX;
    let lines = scoreboard(&ws, &order, &vec![a, b, c]);
    assert_eq!(
        lines,
        vec![
            ScoreLine { place: 0, wallet: 2, total_cps: 2 * (u64::MAX as u128) },
            ScoreLine { place: 2, wallet: 0, total_cps: 7 },
        ]
    );
    assert!(scoreboard(&ws, &order, &vec![]).is_empty());
}
