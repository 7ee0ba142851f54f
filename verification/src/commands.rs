use vstd::prelude::*;
use vstd::arithmetic::power2::{pow2, lemma_pow2_subtracts, lemma2_to64, lemma_pow2_pos};
use vstd::bits::lemma_u64_shr_is_div;
use crate::miner::{
    Miner, BOOST_MAX, sessions, sessions_fit, run_sessions, sessions_would_fit, mined, with_chrono, mine_for,
    lemma_mined, lemma_mined_add, lemma_sessions_add, lemma_sessions_fit_split, lemma_sessions_fit_join,
    lemma_spend_total,
};
use crate::wallet::{Wallet, spent};

verus! {

/// The most miner licences a wallet can hold.
pub const ABS_MAX_MINERS: u64 = 12;

/// Boost seconds bought by one boost purchase.
pub const BOOST_BUNDLE: u64 = 128;

/// The least coins per second a miner needs to buy boost.
pub const BOOST_MIN_CPS: u64 = 1024;

/// Chronocoins that one hour of time travel costs.
pub const TIME_COST: u64 = 1000;

/// Seconds in one hour of time travel.
pub const HOUR: u64 = 3600;

/// Command byte `b`: buy one bundle of boost seconds.
pub const CMD_BOOST: u8 = 0x62;
/// Command byte `B`: buy boost until the limit.
pub const CMD_MAX_BOOST: u8 = 0x42;
/// Command byte `m`: buy one miner licence.
pub const CMD_MINER: u8 = 0x6d;
/// Command byte `M`: buy miner licences until refused.
pub const CMD_MAX_MINER: u8 = 0x4d;
/// Command byte `c`: buy one hour of time travel.
pub const CMD_TIME: u8 = 0x63;
/// Command byte `C`: buy all the hours of time travel the chronocoins pay for.
pub const CMD_MAX_TIME: u8 = 0x43;

/// The largest power of two that is at most `n` (1 for `n` = 0).
pub open spec fn top_bit(n: nat) -> nat
    decreases n,
{
    if n <= 1 { 1 } else { 2 * top_bit(n / 2) }
}

/// `top_bit(n)` is a power of two, at most `n`, and more than half of `n`.
pub proof fn lemma_top_bit(n: nat)
    requires
        n >= 1,
    ensures
        exists|k: nat| top_bit(n) == #[trigger] pow2(k),
        top_bit(n) <= n < 2 * top_bit(n),
    decreases n,
{
    if n <= 1 {
        lemma2_to64();
        assert(top_bit(n) == pow2(0));
    } else {
        lemma_top_bit(n / 2);
        let k = choose|k: nat| top_bit(n / 2) == #[trigger] pow2(k);
        vstd::arithmetic::power2::lemma_pow2_unfold(k + 1);
        assert(top_bit(n) == pow2(k + 1));
    }
}

/// The price of one boost bundle for a miner with `cps` coins per second:
/// the largest power of two that is at most `cps`.
pub fn boost_cost(cps: u64) -> (cost: u64)
    requires
        cps >= 1,
    ensures
        cost == top_bit(cps as nat),
        exists|k: nat| cost == #[trigger] pow2(k),
        cost <= cps < 2 * cost,
{
    proof {
        lemma_top_bit(cps as nat);
    }
    let mut n: u64 = cps;
    let mut p: u64 = 1;
    while n > 1
        invariant
            1 <= n,
            1 <= p,
            p * n <= cps,
            top_bit(cps as nat) == p * top_bit(n as nat),
        decreases n,
    {
        assert(p * 2 <= p * n) by (nonlinear_arith)
            requires
                n >= 2,
                p >= 1,
        ;
        assert((p * 2) * (n / 2) <= p * n) by (nonlinear_arith)
            requires
                n >= 2,
                p >= 1,
        ;
        assert(p * top_bit(n as nat) == (p * 2) * top_bit((n / 2) as nat)) by (nonlinear_arith)
            requires
                top_bit(n as nat) == 2 * top_bit((n / 2) as nat),
        ;
        p = p * 2;
        n = n / 2;
    }
    p
}

/// The price of boosting a miner up to the most boost seconds it can hold:
/// one bundle's price for each whole bundle left below the limit.
pub fn boost_max_cost(cps: u64, boost: u64) -> (cost: u64)
    requires
        cps >= 1,
        boost <= BOOST_MAX,
        top_bit(cps as nat) * ((BOOST_MAX - boost) / BOOST_BUNDLE as int) <= u64::MAX,
    ensures
        cost == top_bit(cps as nat) * ((BOOST_MAX - boost) / BOOST_BUNDLE as int),
{
    let cost = boost_cost(cps);
    let left = (BOOST_MAX - boost) / BOOST_BUNDLE;
    cost * left
}

/// The price of the next miner licence for a wallet that holds `max_miners`:
/// `u64::MAX / 2^(25 - max_miners)`, doubling with every licence; all of
/// `u64::MAX` below the starting number of licences.
pub open spec fn miner_price(max_miners: u64) -> nat {
    if max_miners < 5 {
        u64::MAX as nat
    } else {
        u64::MAX as nat / pow2((25 - max_miners) as nat)
    }
}

/// No licence costs more than `u64::MAX`.
pub proof fn lemma_miner_price_bounded(max_miners: u64)
    ensures
        miner_price(max_miners) <= u64::MAX,
{
    if max_miners >= 5 {
        let d = pow2((25 - max_miners) as nat);
        lemma_pow2_pos((25 - max_miners) as nat);
        assert(u64::MAX as nat / d <= u64::MAX as nat) by (nonlinear_arith)
            requires
                d >= 1,
        ;
    }
}

/// The price of the next miner licence (see `miner_price`).
pub fn miner_cost(max_miners: u64) -> (cost: u64)
    requires
        max_miners <= 25,
    ensures
        cost == miner_price(max_miners),
{
    if max_miners < 5 {
        u64::MAX
    } else {
        let shift = max_miners - 5;
        proof {
            lemma_u64_shr_is_div(0x100000u64, shift);
            lemma2_to64();
            lemma_pow2_subtracts(shift as nat, 20);
            lemma_pow2_pos((25 - max_miners) as nat);
            assert((20 - shift) as nat == (25 - max_miners) as nat);
        }
        u64::MAX / (0x100000u64 >> shift)
    }
}

/// The sum of the licence prices from `from` up to `ABS_MAX_MINERS`, inclusive.
pub open spec fn miner_prices_from(from: u64) -> nat
    decreases ABS_MAX_MINERS + 1 - from,
{
    if from > ABS_MAX_MINERS {
        0
    } else {
        miner_price(from) + miner_prices_from((from + 1) as u64)
    }
}

/// The sum of the licence prices from `max_miners` up to `ABS_MAX_MINERS`, inclusive.
pub fn miner_max_cost(max_miners: u64) -> (cost: u128)
    ensures
        cost == miner_prices_from(max_miners),
{
    let mut max = max_miners;
    let mut cost = 0u128;
    while max <= ABS_MAX_MINERS
        invariant
            max_miners <= max,
            max <= ABS_MAX_MINERS + 1 || max == max_miners,
            cost + miner_prices_from(max) == miner_prices_from(max_miners),
            cost <= (max - max_miners) * (u64::MAX as int),
        decreases ABS_MAX_MINERS + 1 - max,
    {
        let c = miner_cost(max);
        cost = cost + c as u128;
        max = max + 1;
    }
    cost
}

/// The price of one hour of time travel, in chronocoins.
pub fn time_cost() -> (cost: u64)
    ensures
        cost == TIME_COST,
{
    TIME_COST
}

/// The price of all the whole hours of time travel that `chrono` chronocoins buy.
pub fn time_max_cost(chrono: u64) -> (cost: u64)
    ensures
        cost == (chrono / TIME_COST) * TIME_COST,
{
    (chrono / TIME_COST) * TIME_COST
}


/// The kinds of things a player can buy.
#[derive(Clone, Copy, Debug, PartialEq, Eq, Structural)]
pub enum PurchaseType {
    /// boost seconds for the miner
    Boost,
    /// miner licences for the wallet
    Miner,
    /// hours of time travel for the miner
    Chrono,
}

/// What was bought: how many (boost seconds, licences or hours) and for how many coins.
#[derive(Clone, Copy, Debug, PartialEq, Eq, Structural)]
pub struct Purchase {
    pub bought: u64,
    pub cost: u128,
}

/// Why a purchase was refused.
#[derive(Clone, Copy, Debug, PartialEq, Eq, Structural)]
pub enum PurchaseError {
    /// boost needs at least `BOOST_MIN_CPS` coins per second
    BoostNeedsCps,
    /// the miner holds as much boost as it may buy
    BoostLimit,
    /// the wallet cannot pay the boost price it carries
    BoostFunds(u64),
    /// the wallet holds the most miner licences there are
    MinerLimit,
    /// the wallet cannot pay the licence price it carries
    MinerFunds(u64),
    /// the wallet holds fewer chronocoins than an hour of time travel costs
    TimeFunds,
}

pub open spec fn zero_purchase() -> Purchase {
    Purchase { bought: 0, cost: 0 }
}

impl Purchase {
    /// Nothing bought, nothing paid.
    pub fn new() -> (p: Purchase)
        ensures
            p == zero_purchase(),
    {
        Purchase { bought: 0, cost: 0 }
    }

    /// Whether the sum of two purchases fits in their fields.
    pub open spec fn fits_with(self, other: Purchase) -> bool {
        self.bought + other.bought <= u64::MAX && self.cost + other.cost <= u128::MAX
    }

    /// The sum of two purchases.
    pub open spec fn plus(self, other: Purchase) -> Purchase {
        Purchase { bought: (self.bought + other.bought) as u64, cost: (self.cost + other.cost) as u128 }
    }

    /// Adds another purchase to this one.
    pub fn add_assign(&mut self, other: Purchase)
        requires
            old(self).fits_with(other),
        ensures
            *final(self) == old(self).plus(other),
    {
        *self = Purchase { bought: self.bought + other.bought, cost: self.cost + other.cost };
    }
}

/// What buying one boost bundle does (see `buy_boost`).
pub open spec fn boost_step(m: Miner, w: Wallet) -> (Miner, Wallet, Result<(PurchaseType, Purchase), PurchaseError>) {
    if m.cps < BOOST_MIN_CPS {
        (m, w, Err(PurchaseError::BoostNeedsCps))
    } else if m.boost >= BOOST_MAX - BOOST_BUNDLE {
        (m, w, Err(PurchaseError::BoostLimit))
    } else if !w.can_afford(top_bit(m.cps as nat) as u64) {
        (m, w, Err(PurchaseError::BoostFunds(top_bit(m.cps as nat) as u64)))
    } else {
        (
            Miner { boost: (m.boost + BOOST_BUNDLE) as u64, ..m },
            spent(w, top_bit(m.cps as nat) as u64),
            Ok((PurchaseType::Boost, Purchase { bought: BOOST_BUNDLE, cost: top_bit(m.cps as nat) as u128 })),
        )
    }
}

/// Buys one bundle of boost seconds for the miner, paid in idlecoins at
/// `boost_cost` of its coins per second. Refused below `BOOST_MIN_CPS`
/// coins per second, when the miner is within a bundle of `BOOST_MAX`, or
/// when the wallet cannot pay; a refused purchase changes nothing.
pub fn buy_boost(miner: &mut Miner, wallet: &mut Wallet) -> (r: Result<(PurchaseType, Purchase), PurchaseError>)
    ensures
        (*final(miner), *final(wallet), r) == boost_step(*old(miner), *old(wallet)),
{
    if miner.cps < BOOST_MIN_CPS {
        return Err(PurchaseError::BoostNeedsCps);
    }
    if miner.boost >= BOOST_MAX - BOOST_BUNDLE {
        return Err(PurchaseError::BoostLimit);
    }
    let cost = boost_cost(miner.cps);
    if wallet.sub_idlecoins(cost).is_err() {
        return Err(PurchaseError::BoostFunds(cost));
    }
    let bought: u64 = BOOST_BUNDLE;
    miner.boost = miner.boost.saturating_add(bought);
    if miner.boost > BOOST_MAX {
        miner.boost = BOOST_MAX;
    }
    Ok((PurchaseType::Boost, Purchase { bought, cost: cost as u128 }))
}

/// What buying boost bundles until one is refused does (see `buy_max_boost`).
pub open spec fn boost_all(m: Miner, w: Wallet, t: Purchase) -> (Miner, Wallet, Purchase)
    decreases BOOST_MAX - m.boost,
{
    let (m2, w2, r) = boost_step(m, w);
    match r {
        Ok((_, p)) => if m.boost < BOOST_MAX - BOOST_BUNDLE {
            boost_all(m2, w2, t.plus(p))
        } else {
            (m, w, t)
        },
        Err(_) => (m, w, t),
    }
}

/// Buys boost bundles one after the other until one is refused; returns the
/// total bought.
pub fn buy_max_boost(miner: &mut Miner, wallet: &mut Wallet) -> (r: Option<(PurchaseType, Purchase)>)
    ensures
        ({
            let (m2, w2, t) = boost_all(*old(miner), *old(wallet), zero_purchase());
            &&& *final(miner) == m2
            &&& *final(wallet) == w2
            &&& r == Some((PurchaseType::Boost, t))
        }),
{
    let ghost m0 = *miner;
    let ghost w0 = *wallet;
    let mut totals = Purchase::new();
    loop
        invariant
            m0 == *old(miner),
            w0 == *old(wallet),
            boost_all(*miner, *wallet, totals) == boost_all(m0, w0, zero_purchase()),
            totals.bought == miner.boost - m0.boost,
            miner.cps == m0.cps,
            totals.bought == 0 || miner.boost <= BOOST_MAX,
            totals.cost * BOOST_BUNDLE <= totals.bought * 0x1_0000_0000_0000_0000int,
        decreases u64::MAX - miner.boost,
    {
        let ghost mb = *miner;
        let ghost wb = *wallet;
        match buy_boost(miner, wallet) {
            Ok((_, p)) => {
                proof {
                    lemma_top_bit(mb.cps as nat);
                }
                totals.add_assign(p);
            },
            Err(_) => {
                assert(boost_all(mb, wb, totals) == (mb, wb, totals));
                return Some((PurchaseType::Boost, totals));
            },
        }
    }
}

/// What buying one miner licence does (see `buy_miner`).
pub open spec fn miner_step(w: Wallet) -> (Wallet, Result<(PurchaseType, Purchase), PurchaseError>) {
    if w.max_miners >= ABS_MAX_MINERS {
        (w, Err(PurchaseError::MinerLimit))
    } else if !w.can_afford(miner_price(w.max_miners) as u64) {
        (w, Err(PurchaseError::MinerFunds(miner_price(w.max_miners) as u64)))
    } else {
        (
            Wallet { max_miners: (w.max_miners + 1) as u64, ..spent(w, miner_price(w.max_miners) as u64) },
            Ok((PurchaseType::Miner, Purchase { bought: 1, cost: miner_price(w.max_miners) as u128 })),
        )
    }
}

/// Buys one more miner licence for the wallet at `miner_cost` of its
/// licences, paid in idlecoins. Refused at `ABS_MAX_MINERS` licences or when
/// the wallet cannot pay; a refused purchase changes nothing.
pub fn buy_miner(wallet: &mut Wallet) -> (r: Result<(PurchaseType, Purchase), PurchaseError>)
    ensures
        (*final(wallet), r) == miner_step(*old(wallet)),
{
    if wallet.max_miners >= ABS_MAX_MINERS {
        return Err(PurchaseError::MinerLimit);
    }
    let cost = miner_cost(wallet.max_miners);
    if wallet.sub_idlecoins(cost).is_err() {
        return Err(PurchaseError::MinerFunds(cost));
    }
    wallet.max_miners = wallet.max_miners + 1;
    Ok((PurchaseType::Miner, Purchase { bought: 1, cost: cost as u128 }))
}

/// What buying licences until one is refused does (see `buy_max_miner`).
pub open spec fn miners_all(w: Wallet, t: Purchase) -> (Wallet, Purchase)
    decreases ABS_MAX_MINERS - w.max_miners,
{
    let (w2, r) = miner_step(w);
    match r {
        Ok((_, p)) => if w.max_miners < ABS_MAX_MINERS {
            miners_all(w2, t.plus(p))
        } else {
            (w, t)
        },
        Err(_) => (w, t),
    }
}

/// Buys miner licences one after the other until one is refused; returns the
/// total bought.
pub fn buy_max_miner(wallet: &mut Wallet) -> (r: Option<(PurchaseType, Purchase)>)
    ensures
        ({
            let (w2, t) = miners_all(*old(wallet), zero_purchase());
            &&& *final(wallet) == w2
            &&& r == Some((PurchaseType::Miner, t))
        }),
{
    let ghost w0 = *wallet;
    let mut totals = Purchase::new();
    loop
        invariant
            w0 == *old(wallet),
            miners_all(*wallet, totals) == miners_all(w0, zero_purchase()),
            totals.bought == wallet.max_miners - w0.max_miners,
            totals.bought <= ABS_MAX_MINERS,
            totals.cost <= totals.bought * (u64::MAX as int),
        decreases u64::MAX - wallet.max_miners,
    {
        let ghost wb = *wallet;
        proof {
            lemma_miner_price_bounded(wallet.max_miners);
        }
        match buy_miner(wallet) {
            Ok((_, p)) => {
                totals.add_assign(p);
            },
            Err(_) => {
                assert(miners_all(wb, totals) == (wb, totals));
                return Some((PurchaseType::Miner, totals));
            },
        }
    }
}

/// What buying one hour of time travel does (see `buy_time`).
pub open spec fn time_step(m: Miner, w: Wallet) -> (Miner, Wallet, Result<(PurchaseType, Purchase), PurchaseError>) {
    if w.chronocoin < TIME_COST {
        (m, w, Err(PurchaseError::TimeFunds))
    } else {
        let (m2, w2) = mined(m, with_chrono(w, (w.chronocoin - TIME_COST) as u64), HOUR as nat);
        (m2, w2, Ok((PurchaseType::Chrono, Purchase { bought: 1, cost: TIME_COST as u128 })))
    }
}

/// Buys one hour of time travel for `TIME_COST` chronocoins: the miner mines
/// an hour's worth of seconds at once, and its wallet earns the idlecoins of
/// each of them, as if the hour had passed. Refused when the wallet holds too
/// few chronocoins; a refused purchase changes nothing.
pub fn buy_time(miner: &mut Miner, wallet: &mut Wallet) -> (r: Result<(PurchaseType, Purchase), PurchaseError>)
    requires
        old(wallet).chronocoin >= TIME_COST ==> sessions_fit(*old(miner), HOUR as nat),
    ensures
        (*final(miner), *final(wallet), r) == time_step(*old(miner), *old(wallet)),
{
    if wallet.sub_chronocoins(time_cost()).is_err() {
        return Err(PurchaseError::TimeFunds);
    }
    mine_for(miner, wallet, HOUR);
    Ok((PurchaseType::Chrono, Purchase { bought: 1, cost: time_cost() as u128 }))
}

/// What buying all the hours of time travel the chronocoins pay for does:
/// the miner and wallet after that many hours of mining, the chronocoins paid.
pub open spec fn time_all(m: Miner, w: Wallet) -> (Miner, Wallet, Purchase) {
    let hours = w.chronocoin / TIME_COST;
    let (m2, w2) = mined(m, w, (HOUR * hours) as nat);
    (
        m2,
        with_chrono(w2, (w.chronocoin - TIME_COST * hours) as u64),
        Purchase { bought: hours as u64, cost: (TIME_COST * hours) as u128 },
    )
}

/// Buys hours of time travel one after the other until the chronocoins run
/// out: all the whole hours the wallet's chronocoins pay for.
pub fn buy_max_time(miner: &mut Miner, wallet: &mut Wallet) -> (r: Option<(PurchaseType, Purchase)>)
    requires
        sessions_fit(*old(miner), (HOUR * (old(wallet).chronocoin / TIME_COST)) as nat),
    ensures
        ({
            let (m2, w2, t) = time_all(*old(miner), *old(wallet));
            &&& *final(miner) == m2
            &&& *final(wallet) == w2
            &&& r == Some((PurchaseType::Chrono, t))
        }),
        *final(miner) == sessions(*old(miner), (HOUR * (old(wallet).chronocoin / TIME_COST)) as nat),
{
    let ghost m0 = *miner;
    let ghost w0 = *wallet;
    let ghost k: nat = (w0.chronocoin / TIME_COST) as nat;
    let mut totals = Purchase::new();
    loop
        invariant
            m0 == *old(miner),
            w0 == *old(wallet),
            totals.bought <= k,
            totals.cost == TIME_COST * totals.bought,
            *miner == mined(m0, w0, (HOUR * totals.bought) as nat).0,
            *wallet == with_chrono(mined(m0, w0, (HOUR * totals.bought) as nat).1, (w0.chronocoin - TIME_COST * totals.bought) as u64),
            w0.chronocoin >= TIME_COST * totals.bought,
            sessions_fit(m0, (HOUR * k) as nat),
            k == w0.chronocoin / TIME_COST,
        decreases wallet.chronocoin,
    {
        let ghost j: nat = totals.bought as nat;
        let ghost mb = *miner;
        let ghost wb = *wallet;
        proof {
            let (a, b) = mined(m0, w0, (HOUR * j) as nat);
            lemma_mined(m0, w0, (HOUR * j) as nat, 0);
            lemma_mined(a, b, HOUR as nat, (w0.chronocoin - TIME_COST * (j + 1)) as u64);
            lemma_mined(a, b, HOUR as nat, 0);
            lemma_mined_add(m0, w0, (HOUR * j) as nat, HOUR as nat);
            assert(with_chrono(wb, (wb.chronocoin - TIME_COST) as u64) == with_chrono(b, (w0.chronocoin - TIME_COST * (j + 1)) as u64));
        }
        if wallet.chronocoin >= TIME_COST {
            proof {
                assert(j < k);
                lemma_sessions_fit_split(m0, (HOUR * j) as nat, (HOUR * (k - j)) as nat);
                lemma_sessions_fit_split(sessions(m0, (HOUR * j) as nat), HOUR as nat, (HOUR * (k - j - 1)) as nat);
            }
        }
        match buy_time(miner, wallet) {
            Ok((_, p)) => {
                totals.add_assign(p);
            },
            Err(_) => {
                assert(j == k) by (nonlinear_arith)
                    requires
                        w0.chronocoin - 1000 * j < 1000,
                        w0.chronocoin >= 1000 * j,
                        k == w0.chronocoin / 1000,
                ;
                proof {
                    lemma_mined(m0, w0, (HOUR * k) as nat, 0);
                }
                return Some((PurchaseType::Chrono, totals));
            },
        }
    }
}

/// The purchases of one miner's connection, by kind, summed.
#[derive(Clone, Copy, Debug, PartialEq, Eq, Structural)]
pub struct UpgradeList {
    pub boost: Purchase,
    pub miner: Purchase,
    pub chrono: Purchase,
}

impl UpgradeList {
    /// Nothing bought yet.
    pub fn new() -> (u: UpgradeList)
        ensures
            u.boost == zero_purchase(),
            u.miner == zero_purchase(),
            u.chrono == zero_purchase(),
    {
        UpgradeList { boost: Purchase::new(), miner: Purchase::new(), chrono: Purchase::new() }
    }

    /// The sum of the purchases of one kind.
    pub open spec fn slot(self, t: PurchaseType) -> Purchase {
        match t {
            PurchaseType::Boost => self.boost,
            PurchaseType::Miner => self.miner,
            PurchaseType::Chrono => self.chrono,
        }
    }

    /// The list with the sum of one kind replaced.
    pub open spec fn with(self, t: PurchaseType, p: Purchase) -> UpgradeList {
        match t {
            PurchaseType::Boost => UpgradeList { boost: p, ..self },
            PurchaseType::Miner => UpgradeList { miner: p, ..self },
            PurchaseType::Chrono => UpgradeList { chrono: p, ..self },
        }
    }

    /// The sum of the purchases of one kind.
    pub fn get(&self, t: PurchaseType) -> (p: Purchase)
        ensures
            p == self.slot(t),
    {
        match t {
            PurchaseType::Boost => self.boost,
            PurchaseType::Miner => self.miner,
            PurchaseType::Chrono => self.chrono,
        }
    }
}

/// Adds a purchase to the sum of its kind.
pub fn update_upgrade_list(map: &mut UpgradeList, p_type: PurchaseType, p: Purchase)
    requires
        old(map).slot(p_type).fits_with(p),
    ensures
        *final(map) == old(map).with(p_type, old(map).slot(p_type).plus(p)),
{
    let mut node = map.get(p_type);
    node.add_assign(p);
    match p_type {
        PurchaseType::Boost => map.boost = node,
        PurchaseType::Miner => map.miner = node,
        PurchaseType::Chrono => map.chrono = node,
    }
}

/// What one command byte came to.
#[derive(Clone, Copy, Debug, PartialEq, Eq, Structural)]
pub enum Outcome {
    /// something was bought
    Bought(PurchaseType, Purchase),
    /// the purchase was refused
    Failed(PurchaseError),
    /// the byte is no command
    Ignored,
}

pub open spec fn outcome_of(r: Result<(PurchaseType, Purchase), PurchaseError>) -> Outcome {
    match r {
        Ok((t, p)) => Outcome::Bought(t, p),
        Err(e) => Outcome::Failed(e),
    }
}

/// What one command byte does: `b` buys a boost bundle, `B` boost until the
/// limit, `m` a miner licence, `M` licences until refused, `c` an hour of
/// time travel, `C` all the hours the chronocoins pay for; any other byte
/// does nothing.
pub open spec fn command_step(b: u8, m: Miner, w: Wallet) -> (Miner, Wallet, Outcome) {
    if b == CMD_BOOST {
        let (m2, w2, r) = boost_step(m, w);
        (m2, w2, outcome_of(r))
    } else if b == CMD_MAX_BOOST {
        let (m2, w2, t) = boost_all(m, w, zero_purchase());
        (m2, w2, Outcome::Bought(PurchaseType::Boost, t))
    } else if b == CMD_MINER {
        let (w2, r) = miner_step(w);
        (m, w2, outcome_of(r))
    } else if b == CMD_MAX_MINER {
        let (w2, t) = miners_all(w, zero_purchase());
        (m, w2, Outcome::Bought(PurchaseType::Miner, t))
    } else if b == CMD_TIME {
        let (m2, w2, r) = time_step(m, w);
        (m2, w2, outcome_of(r))
    } else if b == CMD_MAX_TIME {
        let (m2, w2, t) = time_all(m, w);
        (m2, w2, Outcome::Bought(PurchaseType::Chrono, t))
    } else {
        (m, w, Outcome::Ignored)
    }
}

/// Whether one command byte runs without arithmetic overflow.
pub open spec fn command_fits(b: u8, m: Miner, w: Wallet) -> bool {
    &&& b == CMD_TIME ==> (w.chronocoin >= TIME_COST ==> sessions_fit(m, HOUR as nat))
    &&& b == CMD_MAX_TIME ==> sessions_fit(m, (HOUR * (w.chronocoin / TIME_COST)) as nat)
}

/// Runs one command byte for a miner and its wallet (see `command_step`).
pub fn apply_command(b: u8, miner: &mut Miner, wallet: &mut Wallet) -> (o: Outcome)
    requires
        command_fits(b, *old(miner), *old(wallet)),
    ensures
        (*final(miner), *final(wallet), o) == command_step(b, *old(miner), *old(wallet)),
{
    if b == CMD_BOOST {
        match buy_boost(miner, wallet) {
            Ok((t, p)) => Outcome::Bought(t, p),
            Err(e) => Outcome::Failed(e),
        }
    } else if b == CMD_MAX_BOOST {
        match buy_max_boost(miner, wallet) {
            Some((t, p)) => Outcome::Bought(t, p),
            None => Outcome::Ignored,
        }
    } else if b == CMD_MINER {
        match buy_miner(wallet) {
            Ok((t, p)) => Outcome::Bought(t, p),
            Err(e) => Outcome::Failed(e),
        }
    } else if b == CMD_MAX_MINER {
        match buy_max_miner(wallet) {
            Some((t, p)) => Outcome::Bought(t, p),
            None => Outcome::Ignored,
        }
    } else if b == CMD_TIME {
        match buy_time(miner, wallet) {
            Ok((t, p)) => Outcome::Bought(t, p),
            Err(e) => Outcome::Failed(e),
        }
    } else if b == CMD_MAX_TIME {
        match buy_max_time(miner, wallet) {
            Some((t, p)) => Outcome::Bought(t, p),
            None => Outcome::Ignored,
        }
    } else {
        Outcome::Ignored
    }
}

/// What a run of command bytes does, one byte after the other.
pub open spec fn run(bytes: Seq<u8>, m: Miner, w: Wallet) -> (Miner, Wallet, Seq<Outcome>)
    decreases bytes.len(),
{
    if bytes.len() == 0 {
        (m, w, seq![])
    } else {
        let (m1, w1, os) = run(bytes.drop_last(), m, w);
        let (m2, w2, o) = command_step(bytes.last(), m1, w1);
        (m2, w2, os.push(o))
    }
}

/// Whether a run of command bytes runs without arithmetic overflow.
pub open spec fn run_fits(bytes: Seq<u8>, m: Miner, w: Wallet) -> bool
    decreases bytes.len(),
{
    if bytes.len() == 0 {
        true
    } else {
        run_fits(bytes.drop_last(), m, w) && command_fits(
            bytes.last(),
            run(bytes.drop_last(), m, w).0,
            run(bytes.drop_last(), m, w).1,
        )
    }
}

/// The purchase sums after the outcomes were added in.
pub open spec fn tally(u: UpgradeList, os: Seq<Outcome>) -> UpgradeList
    decreases os.len(),
{
    if os.len() == 0 {
        u
    } else {
        let u1 = tally(u, os.drop_last());
        match os.last() {
            Outcome::Bought(t, p) => u1.with(t, u1.slot(t).plus(p)),
            _ => u1,
        }
    }
}

/// Whether adding the outcomes in keeps the sums in their fields.
pub open spec fn tally_fits(u: UpgradeList, os: Seq<Outcome>) -> bool
    decreases os.len(),
{
    if os.len() == 0 {
        true
    } else {
        tally_fits(u, os.drop_last()) && match os.last() {
            Outcome::Bought(t, p) => tally(u, os.drop_last()).slot(t).fits_with(p),
            _ => true,
        }
    }
}

/// The refusals among the outcomes, in order.
pub open spec fn failures(os: Seq<Outcome>) -> Seq<PurchaseError>
    decreases os.len(),
{
    if os.len() == 0 {
        seq![]
    } else {
        let f = failures(os.drop_last());
        match os.last() {
            Outcome::Failed(e) => f.push(e),
            _ => f,
        }
    }
}

/// A run of bytes gives one outcome per byte, and a prefix of the bytes the
/// same prefix of the outcomes.
pub proof fn lemma_run_prefix(bytes: Seq<u8>, m: Miner, w: Wallet, k: int)
    requires
        0 <= k <= bytes.len(),
    ensures
        run(bytes, m, w).2.len() == bytes.len(),
        run(bytes.take(k), m, w).2 == run(bytes, m, w).2.take(k),
        run_fits(bytes, m, w) ==> run_fits(bytes.take(k), m, w),
    decreases bytes.len(),
{
    if bytes.len() > 0 {
        lemma_run_prefix(bytes.drop_last(), m, w, if k < bytes.len() { k } else { 0 });
        if k < bytes.len() {
            assert(bytes.take(k) =~= bytes.drop_last().take(k));
            assert(run(bytes, m, w).2.take(k) =~= run(bytes.drop_last(), m, w).2.take(k));
        } else {
            assert(bytes.take(k) =~= bytes);
            assert(run(bytes, m, w).2.take(k) =~= run(bytes, m, w).2);
        }
    } else {
        assert(bytes.take(k) =~= bytes);
        assert(run(bytes, m, w).2.take(k) =~= run(bytes, m, w).2);
    }
}

/// Adding in a prefix of the outcomes keeps the sums in their fields where
/// adding in all of them does.
pub proof fn lemma_tally_fits_prefix(u: UpgradeList, os: Seq<Outcome>, k: int)
    requires
        0 <= k <= os.len(),
        tally_fits(u, os),
    ensures
        tally_fits(u, os.take(k)),
    decreases os.len(),
{
    if k < os.len() {
        lemma_tally_fits_prefix(u, os.drop_last(), k);
        assert(os.take(k) =~= os.drop_last().take(k));
    } else {
        assert(os.take(k) =~= os);
    }
}

/// The error of a run of commands whose arithmetic would overflow: the
/// position of the byte that would overflow.
#[derive(Clone, Copy, Debug, PartialEq, Eq, Structural)]
pub struct CommandOverflow {
    pub at: usize,
}

/// Whether `hours` hours of time travel run without arithmetic overflow.
pub fn hours_would_fit(miner: &Miner, hours: u64) -> (r: bool)
    ensures
        r == sessions_fit(*miner, (HOUR * hours) as nat),
{
    let mut m = *miner;
    let mut j: u64 = 0;
    while j < hours
        invariant
            j <= hours,
            m == sessions(*miner, (HOUR * j) as nat),
            sessions_fit(*miner, (HOUR * j) as nat),
        decreases hours - j,
    {
        if !sessions_would_fit(&m, HOUR) {
            proof {
                if sessions_fit(*miner, (HOUR * hours) as nat) {
                    lemma_sessions_fit_split(*miner, (HOUR * j) as nat, (HOUR * (hours - j)) as nat);
                    lemma_sessions_fit_split(m, HOUR as nat, (HOUR * (hours - j - 1)) as nat);
                }
            }
            return false;
        }
        proof {
            lemma_sessions_fit_join(*miner, (HOUR * j) as nat, HOUR as nat);
            lemma_sessions_add(*miner, (HOUR * j) as nat, HOUR as nat);
        }
        run_sessions(&mut m, HOUR);
        j = j + 1;
    }
    true
}

/// Whether one command byte would run without arithmetic overflow.
pub fn command_would_fit(b: u8, miner: &Miner, wallet: &Wallet) -> (r: bool)
    ensures
        r == command_fits(b, *miner, *wallet),
{
    if b == CMD_TIME {
        if wallet.chronocoin >= TIME_COST {
            sessions_would_fit(miner, HOUR)
        } else {
            true
        }
    } else if b == CMD_MAX_TIME {
        hours_would_fit(miner, wallet.chronocoin / TIME_COST)
    } else {
        true
    }
}

/// Whether adding an outcome in keeps the sums in their fields.
pub fn tally_would_fit(upgrades: &UpgradeList, o: Outcome) -> (r: bool)
    ensures
        r == match o {
            Outcome::Bought(t, p) => upgrades.slot(t).fits_with(p),
            _ => true,
        },
{
    match o {
        Outcome::Bought(t, p) => {
            let q = upgrades.get(t);
            q.bought.checked_add(p.bought).is_some() && q.cost.checked_add(p.cost).is_some()
        },
        _ => true,
    }
}

/// Whether the first `k` command bytes run without arithmetic overflow,
/// purchase sums included.
pub open spec fn prefix_fits(bytes: Seq<u8>, m: Miner, w: Wallet, u: UpgradeList, k: int) -> bool {
    run_fits(bytes.take(k), m, w) && tally_fits(u, run(bytes.take(k), m, w).2)
}

/// Runs the command bytes a player sent, one after the other, for the
/// player's miner and wallet: each purchase is added to its kind's sum in
/// `upgrades`, and the refusals are returned in order. A refused purchase
/// does not stop the bytes after it. Where a byte's arithmetic would
/// overflow, the bytes before it stay done, that byte changes nothing, and
/// the error gives its position.
pub fn process_commands(
    bytes: &[u8],
    miner: &mut Miner,
    wallet: &mut Wallet,
    upgrades: &mut UpgradeList,
) -> (r: Result<Vec<PurchaseError>, CommandOverflow>)
    ensures
        r is Err <==> !prefix_fits(bytes@, *old(miner), *old(wallet), *old(upgrades), bytes@.len() as int),
        r matches Ok(errors) ==> {
            let (m2, w2, os) = run(bytes@, *old(miner), *old(wallet));
            &&& *final(miner) == m2
            &&& *final(wallet) == w2
            &&& *final(upgrades) == tally(*old(upgrades), os)
            &&& errors@ == failures(os)
        },
        r matches Err(e) ==> {
            let (m2, w2, os) = run(bytes@.take(e.at as int), *old(miner), *old(wallet));
            &&& e.at < bytes@.len()
            &&& prefix_fits(bytes@, *old(miner), *old(wallet), *old(upgrades), e.at as int)
            &&& !prefix_fits(bytes@, *old(miner), *old(wallet), *old(upgrades), e.at + 1)
            &&& *final(miner) == m2
            &&& *final(wallet) == w2
            &&& *final(upgrades) == tally(*old(upgrades), os)
        },
{
    let ghost m0 = *miner;
    let ghost w0 = *wallet;
    let ghost u0 = *upgrades;
    let mut errors: Vec<PurchaseError> = Vec::new();
    let n = bytes.len();
    let mut i: usize = 0;
    proof {
        assert(bytes@.take(0) =~= Seq::<u8>::empty());
    }
    while i < n
        invariant
            n == bytes@.len(),
            i <= n,
            m0 == *old(miner),
            w0 == *old(wallet),
            u0 == *old(upgrades),
            prefix_fits(bytes@, m0, w0, u0, i as int),
            *miner == run(bytes@.take(i as int), m0, w0).0,
            *wallet == run(bytes@.take(i as int), m0, w0).1,
            *upgrades == tally(u0, run(bytes@.take(i as int), m0, w0).2),
            errors@ == failures(run(bytes@.take(i as int), m0, w0).2),
        decreases n - i,
    {
        let ghost pre = bytes@.take(i as int);
        let ghost next = bytes@.take(i + 1);
        proof {
            assert(next.drop_last() =~= pre);
            assert(next.last() == bytes@[i as int]);
            lemma_run_prefix(next, m0, w0, i as int);
            lemma_run_prefix(pre, m0, w0, 0);
            assert(next.take(i as int) =~= pre);
        }
        if !command_would_fit(bytes[i], miner, wallet) {
            proof {
                lemma_prefix_fits_later(bytes@, m0, w0, u0, i as int);
            }
            return Err(CommandOverflow { at: i });
        }
        let mut m2 = *miner;
        let mut w2 = *wallet;
        let o = apply_command(bytes[i], &mut m2, &mut w2);
        proof {
            assert(run(next, m0, w0).2.drop_last() =~= run(pre, m0, w0).2);
        }
        if !tally_would_fit(upgrades, o) {
            proof {
                lemma_prefix_fits_later(bytes@, m0, w0, u0, i as int);
            }
            return Err(CommandOverflow { at: i });
        }
        *miner = m2;
        *wallet = w2;
        match o {
            Outcome::Bought(t, p) => {
                update_upgrade_list(upgrades, t, p);
            },
            Outcome::Failed(e) => {
                errors.push(e);
            },
            Outcome::Ignored => {},
        }
        i = i + 1;
    }
    proof {
        assert(bytes@.take(n as int) =~= bytes@);
    }
    Ok(errors)
}

/// Where the first `k + 1` bytes do not run without overflow, no longer
/// run of them does.
pub proof fn lemma_prefix_fits_later(bytes: Seq<u8>, m: Miner, w: Wallet, u: UpgradeList, k: int)
    requires
        0 <= k < bytes.len(),
        !prefix_fits(bytes, m, w, u, k + 1),
    ensures
        !prefix_fits(bytes, m, w, u, bytes.len() as int),
{
    assert(bytes.take(bytes.len() as int) =~= bytes);
    if prefix_fits(bytes, m, w, u, bytes.len() as int) {
        lemma_run_prefix(bytes, m, w, k + 1);
        lemma_run_prefix(bytes, m, w, bytes.len() as int);
        lemma_tally_fits_prefix(u, run(bytes, m, w).2, k + 1);
    }
}

/// Buying boost until the limit buys `(BOOST_MAX - boost) / BOOST_BUNDLE`
/// bundles at `boost_cost` each, so that its price is `boost_max_cost`, for
/// a wallet that can pay for them all. It fails where the boost is one short
/// of a whole number of bundles below the limit (`boost % 128 == 127`): one
/// bundle fewer is bought than the price counts.
pub proof fn lemma_max_boost_price(m: Miner, w: Wallet, t: Purchase)
    requires
        m.cps >= BOOST_MIN_CPS,
        m.boost <= BOOST_MAX,
        m.boost % BOOST_BUNDLE != 127,
        w.total() >= top_bit(m.cps as nat) * ((BOOST_MAX - m.boost) / BOOST_BUNDLE as int),
        t.bought + BOOST_BUNDLE * ((BOOST_MAX - m.boost) / BOOST_BUNDLE as int) <= u64::MAX,
        t.cost + top_bit(m.cps as nat) * ((BOOST_MAX - m.boost) / BOOST_BUNDLE as int) <= u128::MAX,
    ensures
        ({
            let n = (BOOST_MAX - m.boost) / BOOST_BUNDLE as int;
            let cost = top_bit(m.cps as nat);
            let (m2, w2, t2) = boost_all(m, w, t);
            &&& m2 == Miner { boost: (m.boost + BOOST_BUNDLE * n) as u64, ..m }
            &&& w2.total() == w.total() - n * cost
            &&& w2.id == w.id && w2.chronocoin == w.chronocoin && w2.randocoin == w.randocoin
            &&& w2.max_miners == w.max_miners
            &&& t2 == Purchase { bought: (t.bought + BOOST_BUNDLE * n) as u64, cost: (t.cost + n * cost) as u128 }
        }),
    decreases BOOST_MAX - m.boost,
{
    let n = (BOOST_MAX - m.boost) / BOOST_BUNDLE as int;
    let cost = top_bit(m.cps as nat);
    lemma_top_bit(m.cps as nat);
    if n == 0 {
        assert(m.boost >= BOOST_MAX - BOOST_BUNDLE);
    } else {
        assert(m.boost < BOOST_MAX - BOOST_BUNDLE);
        assert(cost * n >= cost) by (nonlinear_arith)
            requires
                n >= 1,
                cost >= 0,
        ;
        assert(cost <= u64::MAX);
        assert(w.total() >= cost);
        if w.supercoin == 0 {
            assert(w.total() == w.idlecoin);
        }
        assert(w.can_afford(cost as u64));
        let (m2, w2, r) = boost_step(m, w);
        lemma_spend_total(w, cost as u64);
        assert(r is Ok);
        let p = Purchase { bought: BOOST_BUNDLE, cost: cost as u128 };
        assert((BOOST_MAX - m2.boost) / BOOST_BUNDLE as int == n - 1);
        assert(cost * (n - 1) == cost * n - cost) by (nonlinear_arith);
        assert(n * cost == cost * n) by (nonlinear_arith);
        lemma_max_boost_price(m2, w2, t.plus(p));
    }
}

/// The licence limit holds: buying licences never takes a wallet past
/// `ABS_MAX_MINERS` licences, nor lowers its number of licences.
pub proof fn lemma_licence_limit(w: Wallet, t: Purchase)
    ensures
        w.max_miners <= ABS_MAX_MINERS ==> miner_step(w).0.max_miners <= ABS_MAX_MINERS,
        w.max_miners <= ABS_MAX_MINERS ==> miners_all(w, t).0.max_miners <= ABS_MAX_MINERS,
        miner_step(w).0.max_miners >= w.max_miners,
        miners_all(w, t).0.max_miners >= w.max_miners,
    decreases ABS_MAX_MINERS - w.max_miners,
{
    let (w2, r) = miner_step(w);
    if r is Ok && w.max_miners < ABS_MAX_MINERS {
        let p = Purchase { bought: 1, cost: miner_price(w.max_miners) as u128 };
        lemma_licence_limit(w2, t.plus(p));
    }
}

/// A purchase made with one command byte costs the wallet exactly its
/// price: idlecoins out of the wallet's total for boost and licences,
/// chronocoins for an hour of time travel; a refused one costs nothing.
pub proof fn lemma_purchase_pays(b: u8, m: Miner, w: Wallet)
    requires
        b == CMD_BOOST || b == CMD_MINER || b == CMD_TIME,
    ensures
        ({
            let (m2, w2, o) = command_step(b, m, w);
            &&& o matches Outcome::Bought(t, p) ==> {
                &&& (t == PurchaseType::Boost || t == PurchaseType::Miner) ==> w2.total() == w.total() - p.cost
                &&& t == PurchaseType::Chrono ==> w2.chronocoin == w.chronocoin - p.cost
            }
            &&& o is Failed ==> m2 == m && w2 == w
        }),
{
    if b == CMD_BOOST {
        if m.cps >= 1 {
            lemma_top_bit(m.cps as nat);
        }
        lemma_spend_total(w, top_bit(m.cps as nat) as u64);
    } else if b == CMD_MINER {
        lemma_miner_price_bounded(w.max_miners);
        lemma_spend_total(w, miner_price(w.max_miners) as u64);
    } else {
        lemma_mined(m, with_chrono(w, (w.chronocoin - TIME_COST) as u64), HOUR as nat, 0);
    }
}

/// Buying all the time travel the chronocoins pay for buys
/// `chronocoin / TIME_COST` hours at `time_max_cost` of the chronocoins,
/// and leaves the wallet fewer chronocoins than one hour costs.
pub proof fn lemma_max_time_price(m: Miner, w: Wallet)
    ensures
        time_all(m, w).2.bought == w.chronocoin / TIME_COST,
        time_all(m, w).2.cost == (w.chronocoin / TIME_COST) * TIME_COST,
        time_all(m, w).1.chronocoin == w.chronocoin - time_all(m, w).2.cost,
        time_all(m, w).1.chronocoin < TIME_COST,
{
}

/// Command bytes run one after the other: every byte has its outcome, each
/// from the state that the bytes before it left, so that a refused purchase
/// does not stop the bytes after it.
pub proof fn lemma_commands_in_sequence(bytes: Seq<u8>, m: Miner, w: Wallet, i: int)
    requires
        0 <= i < bytes.len(),
    ensures
        run(bytes, m, w).2.len() == bytes.len(),
        ({
            let (mi, wi, _) = run(bytes.take(i), m, w);
            run(bytes, m, w).2[i] == command_step(bytes[i], mi, wi).2
        }),
{
    lemma_run_prefix(bytes, m, w, i + 1);
    lemma_run_prefix(bytes, m, w, bytes.len() as int);
    lemma_run_prefix(bytes.take(i), m, w, 0);
    let next = bytes.take(i + 1);
    assert(next.drop_last() =~= bytes.take(i));
    assert(next.last() == bytes[i]);
    let (mi, wi, os) = run(bytes.take(i), m, w);
    assert(os.len() == i);
    assert(run(next, m, w).2 == os.push(command_step(bytes[i], mi, wi).2));
    assert(run(bytes, m, w).2.take(i + 1)[i] == run(bytes, m, w).2[i]);
}


/// A paid price comes out of the wallet's fortune exactly where the wallet
/// can afford it.
pub proof fn lemma_affordable_price(w: Wallet, price: u64)
    requires
        w.can_afford(price),
    ensures
        spent(w, price).total() == w.total() - price,
        w.total() >= price,
{
    lemma_spend_total(w, price);
}

/// `M` buys licences until one is refused: afterwards the next licence is
/// refused; each licence bought raises the licence count by one; the wallet
/// pays the total price out of its fortune; and where the next licence can be
/// bought, it is bought, at its price.
pub proof fn lemma_max_miner_until_refused(w: Wallet, t: Purchase)
    requires
        t.bought + ABS_MAX_MINERS <= u64::MAX + w.max_miners,
        t.cost + ABS_MAX_MINERS * (u64::MAX as int) <= u128::MAX + w.max_miners * (u64::MAX as int),
    ensures
        ({
            let (w2, t2) = miners_all(w, t);
            &&& miner_step(w2).1 is Err
            &&& w2.max_miners >= w.max_miners
            &&& t2.bought == t.bought + (w2.max_miners - w.max_miners)
            &&& w.total() - w2.total() == t2.cost - t.cost
            &&& w2.id == w.id && w2.chronocoin == w.chronocoin && w2.randocoin == w.randocoin
            &&& miner_step(w).1 is Ok ==> w2.max_miners > w.max_miners && t2.cost >= t.cost + miner_price(w.max_miners)
        }),
    decreases ABS_MAX_MINERS - w.max_miners,
{
    let (w1, r) = miner_step(w);
    if r is Ok {
        lemma_miner_price_bounded(w.max_miners);
        let price = miner_price(w.max_miners) as u64;
        lemma_affordable_price(w, price);
        let p = Purchase { bought: 1, cost: price as u128 };
        lemma_max_miner_until_refused(w1, t.plus(p));
    }
}

/// `B` buys boost bundles until one is refused: afterwards the next bundle is
/// refused; only the boost of the miner changes, by the boost seconds bought;
/// the wallet pays the total price out of its fortune; and where the next
/// bundle can be bought, it is bought, at its price.
pub proof fn lemma_max_boost_until_refused(m: Miner, w: Wallet, t: Purchase)
    requires
        t.bought + BOOST_MAX + BOOST_BUNDLE <= u64::MAX + m.boost,
        t.cost + (BOOST_MAX + BOOST_BUNDLE - m.boost) * (u64::MAX as int) <= u128::MAX,
    ensures
        ({
            let (m2, w2, t2) = boost_all(m, w, t);
            &&& boost_step(m2, w2).2 is Err
            &&& m2 == Miner { boost: m2.boost, ..m }
            &&& m2.boost >= m.boost
            &&& t2.bought == t.bought + (m2.boost - m.boost)
            &&& w.total() - w2.total() == t2.cost - t.cost
            &&& w2.id == w.id && w2.chronocoin == w.chronocoin && w2.randocoin == w.randocoin
            &&& w2.max_miners == w.max_miners
            &&& boost_step(m, w).2 is Ok ==> m2.boost > m.boost && t2.cost >= t.cost + top_bit(m.cps as nat)
        }),
    decreases BOOST_MAX - m.boost,
{
    let (m1, w1, r) = boost_step(m, w);
    if r is Ok {
        lemma_top_bit(m.cps as nat);
        let price = top_bit(m.cps as nat) as u64;
        lemma_affordable_price(w, price);
        let p = Purchase { bought: BOOST_BUNDLE, cost: price as u128 };
        lemma_max_boost_price_step(m, w, t, p);
        lemma_max_boost_until_refused(m1, w1, t.plus(p));
    }
}

proof fn lemma_max_boost_price_step(m: Miner, w: Wallet, t: Purchase, p: Purchase)
    requires
        m.cps >= BOOST_MIN_CPS,
        m.boost < BOOST_MAX - BOOST_BUNDLE,
        p.cost <= u64::MAX,
        p.bought == BOOST_BUNDLE,
        t.cost + (BOOST_MAX + BOOST_BUNDLE - m.boost) * (u64::MAX as int) <= u128::MAX,
    ensures
        t.cost + p.cost + (BOOST_MAX + BOOST_BUNDLE - (m.boost + BOOST_BUNDLE)) * (u64::MAX as int) <= u128::MAX,
{
    assert((BOOST_MAX + BOOST_BUNDLE - m.boost) * (u64::MAX as int) == (BOOST_MAX - m.boost) * (u64::MAX as int)
        + BOOST_BUNDLE * (u64::MAX as int)) by (nonlinear_arith);
}

/// `C` is `c` repeated: with fewer chronocoins than an hour costs it buys
/// nothing and changes nothing; otherwise it is one hour of time travel
/// followed by `C` on what that hour left, plus that hour.
pub proof fn lemma_max_time_is_repeated_hours(m: Miner, w: Wallet)
    ensures
        w.chronocoin < TIME_COST ==> time_all(m, w) == (m, w, zero_purchase()),
        w.chronocoin >= TIME_COST ==> ({
            let (m1, w1, _) = time_step(m, w);
            let (m2, w2, t2) = time_all(m1, w1);
            time_all(m, w) == (m2, w2, t2.plus(Purchase { bought: 1, cost: TIME_COST as u128 }))
        }),
{
    let k = w.chronocoin / TIME_COST;
    if w.chronocoin < TIME_COST {
        assert(with_chrono(w, w.chronocoin) == w);
    } else {
        let c1 = (w.chronocoin - TIME_COST) as u64;
        let w0 = with_chrono(w, c1);
        let (m1, w1) = mined(m, w0, HOUR as nat);
        lemma_mined(m, w0, HOUR as nat, c1);
        assert(w1.chronocoin == c1);
        assert(c1 / TIME_COST == k - 1);
        lemma_mined_add(m, w0, HOUR as nat, (HOUR * (k - 1)) as nat);
        assert((HOUR as nat) + (HOUR * (k - 1)) as nat == (HOUR * k) as nat);
        let (m3, w3) = mined(m, w0, (HOUR * k) as nat);
        lemma_mined(m, w, (HOUR * k) as nat, c1);
        assert(with_chrono(w, c1) == w0);
        assert(with_chrono(w3, (c1 - TIME_COST * (k - 1)) as u64) == with_chrono(mined(m, w, (HOUR * k) as nat).1, (w.chronocoin - TIME_COST * k) as u64));
    }
}

/// The miner that `C` leaves has mined every second of every hour bought:
/// `HOUR` seconds for each whole `TIME_COST` chronocoins.
pub proof fn lemma_max_time_mines_every_hour(m: Miner, w: Wallet)
    ensures
        time_all(m, w).0 == sessions(m, (HOUR * (w.chronocoin / TIME_COST)) as nat),
        time_all(m, w).2.bought == w.chronocoin / TIME_COST,
{
    lemma_mined(m, w, (HOUR * (w.chronocoin / TIME_COST)) as nat, 0);
}

} // verus!
