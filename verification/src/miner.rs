use vstd::prelude::*;
use crate::wallet::{Wallet, COIN_WRAP, credited, spent, sat_add, sat_sub};

verus! {

/// Crediting idlecoins adds them to the wallet's total fortune (while the
/// supercoins are not at the top of their range): an overflow of the
/// idlecoins is carried into one supercoin. It fails where the idlecoins and
/// the credit are both `u64::MAX`: their sum wraps to zero idlecoins and one
/// supercoin, losing `COIN_WRAP` idlecoins.
pub proof fn lemma_credit_total(w: Wallet, new: u64)
    requires
        w.supercoin < u64::MAX,
        w.idlecoin + new < 2 * COIN_WRAP,
    ensures
        credited(w, new).total() == w.total() + new,
{
    if w.idlecoin + new > u64::MAX {
        let x = w.idlecoin + new;
        let r = x - COIN_WRAP;
        assert(x == 1 * (COIN_WRAP as int) + r);
        vstd::arithmetic::div_mod::lemma_fundamental_div_mod_converse_mod(x, COIN_WRAP as int, 1, r);
    }
}

/// Taking idlecoins takes them from the wallet's total fortune, borrowing
/// from a supercoin as needed; a wallet that cannot pay is left with nothing.
pub proof fn lemma_spend_total(w: Wallet, less: u64)
    ensures
        spent(w, less).total() == if w.total() >= less { w.total() - less } else { 0 },
{
}

/// Idlecoins credited and then taken leave the wallet's total fortune as it was.
pub proof fn lemma_credit_then_spend(w: Wallet, n: u64)
    requires
        w.supercoin < u64::MAX,
        w.idlecoin + n < 2 * COIN_WRAP,
    ensures
        spent(credited(w, n), n).total() == w.total(),
{
    lemma_credit_total(w, n);
    lemma_spend_total(credited(w, n), n);
}

/// The most boost seconds a miner can hold.
pub const BOOST_MAX: u64 = 0xffff;

/// A miner: one connection of a player, earning coins for its wallet.
#[derive(Clone, Copy, Debug, PartialEq, Eq, Structural)]
pub struct Miner {
    /// the wallet this miner earns for
    pub wallet_id: u64,
    /// unique miner ID
    pub miner_id: u32,
    /// miner level
    pub level: u64,
    /// coins per second
    pub cps: u64,
    /// the part of the per-second increase of `cps` that levels have built up
    pub inc: u64,
    /// the `cps` at which the miner reaches its next level
    pub pow: u64,
    /// boost seconds left; while boosted the `cps` grows three times as fast
    pub boost: u64,
}

impl Miner {
    /// A freshly connected miner: level 0, no coins per second, no boost.
    pub fn new(wallet_id: u64, miner_id: u32) -> (m: Miner)
        ensures
            m == (Miner { wallet_id, miner_id, level: 0, cps: 0, inc: 1, pow: 10, boost: 0 }),
    {
        Miner { wallet_id, miner_id, level: 0, cps: 0, inc: 1, pow: 10, boost: 0 }
    }
}

pub open spec fn sat_mul(a: int, b: int) -> u64 {
    if a * b > u64::MAX { u64::MAX } else { (a * b) as u64 }
}

/// The miner one level up: the new level is added to its increase and its
/// next level needs ten times the coins per second.
pub open spec fn leveled_up(m: Miner) -> Miner {
    let level = sat_add(m.level as int, 1);
    Miner { level, inc: sat_add(m.inc as int, level as int), pow: sat_mul(m.pow as int, 10), ..m }
}

/// The miner one level down (never below level 0).
pub open spec fn leveled_down(m: Miner) -> Miner {
    let level = sat_sub(m.level as int, 1);
    Miner { level, inc: sat_sub(m.inc as int, level as int), pow: m.pow / 10, ..m }
}

/// The miner at the start of a session, after it levelled up if its
/// coins per second reached the mark.
pub open spec fn ready(m: Miner) -> Miner {
    if m.cps >= m.pow { leveled_up(m) } else { m }
}

/// The increase of `cps` in one session, before boost.
pub open spec fn gain(m: Miner) -> int {
    ready(m).inc + ready(m).level
}

/// Whether one session runs without arithmetic overflow.
pub open spec fn session_fits(m: Miner) -> bool {
    &&& gain(m) <= u64::MAX
    &&& ready(m).boost > 0 ==> 3 * gain(m) <= u64::MAX
}

/// The miner after one second of mining.
pub open spec fn after_session(m: Miner) -> Miner {
    let r = ready(m);
    if r.boost > 0 {
        Miner { boost: (r.boost - 1) as u64, cps: sat_add(r.cps as int, 3 * gain(m)), ..r }
    } else {
        Miner { cps: sat_add(r.cps as int, gain(m)), ..r }
    }
}

/// The miner after `n` seconds of mining.
pub open spec fn sessions(m: Miner, n: nat) -> Miner
    decreases n,
{
    if n == 0 { m } else { after_session(sessions(m, (n - 1) as nat)) }
}

/// Whether `n` seconds of mining run without arithmetic overflow.
pub open spec fn sessions_fit(m: Miner, n: nat) -> bool {
    forall|k: nat| k < n ==> session_fits(#[trigger] sessions(m, k))
}

/// Raises the miner one level.
pub fn inc_level(miner: &mut Miner)
    ensures
        *final(miner) == leveled_up(*old(miner)),
{
    miner.level = miner.level.saturating_add(1);
    miner.inc = miner.inc.saturating_add(miner.level);
    miner.pow = match miner.pow.checked_mul(10) {
        Some(p) => p,
        None => u64::MAX,
    };
}

/// Lowers the miner one level.
pub fn dec_level(miner: &mut Miner)
    ensures
        *final(miner) == leveled_down(*old(miner)),
{
    miner.level = miner.level.saturating_sub(1);
    miner.inc = miner.inc.saturating_sub(miner.level);
    miner.pow = miner.pow / 10;
}

/// One second of mining: the miner levels up when its coins per second
/// reached the mark, then its coins per second grow by its increase plus its
/// level, three times that while boost seconds are left (using one up).
pub fn miner_session(miner: &mut Miner)
    requires
        session_fits(*old(miner)),
    ensures
        *final(miner) == after_session(*old(miner)),
{
    // Level up
    if miner.cps >= miner.pow {
        inc_level(miner);
    }
    // Increment cps
    let increase = if miner.boost > 0 {
        miner.boost = miner.boost - 1;
        (miner.inc + miner.level) * 3
    } else {
        miner.inc + miner.level
    };
    miner.cps = miner.cps.saturating_add(increase);
}

/// Whether `miner_session` can run on this miner without overflow.
pub fn session_would_fit(miner: &Miner) -> (r: bool)
    ensures
        r == session_fits(*miner),
{
    let mut m = *miner;
    if m.cps >= m.pow {
        inc_level(&mut m);
    }
    match m.inc.checked_add(m.level) {
        None => false,
        Some(g) => if m.boost > 0 {
            g.checked_mul(3).is_some()
        } else {
            true
        },
    }
}

/// Runs `n` seconds of mining.
pub fn run_sessions(miner: &mut Miner, n: u64)
    requires
        sessions_fit(*old(miner), n as nat),
    ensures
        *final(miner) == sessions(*old(miner), n as nat),
{
    let ghost start = *miner;
    let mut i: u64 = 0;
    while i < n
        invariant
            i <= n,
            sessions_fit(start, n as nat),
            *miner == sessions(start, i as nat),
        decreases n - i,
    {
        assert(session_fits(sessions(start, i as nat)));
        miner_session(miner);
        i = i + 1;
    }
}

/// Whether `n` seconds of mining would run without overflow.
pub fn sessions_would_fit(miner: &Miner, n: u64) -> (r: bool)
    ensures
        r == sessions_fit(*miner, n as nat),
{
    let mut m = *miner;
    let mut i: u64 = 0;
    while i < n
        invariant
            i <= n,
            m == sessions(*miner, i as nat),
            sessions_fit(*miner, i as nat),
        decreases n - i,
    {
        if !session_would_fit(&m) {
            assert(!session_fits(sessions(*miner, i as nat)));
            return false;
        }
        miner_session(&mut m);
        i = i + 1;
        assert forall|k: nat| k < i implies session_fits(#[trigger] sessions(*miner, k)) by {
            if k < i - 1 {
                assert(sessions_fit(*miner, (i - 1) as nat));
            }
        }
    }
    true
}

/// Credits `new` idlecoins to the wallet. When the idlecoins overflow they
/// wrap modulo `COIN_WRAP` and one supercoin (saturating) is added.
pub fn add_idlecoins(wallet: &mut Wallet, new: u64)
    ensures
        *final(wallet) == credited(*old(wallet), new),
        old(wallet).supercoin < u64::MAX && old(wallet).idlecoin + new < 2 * COIN_WRAP
            ==> final(wallet).total() == old(wallet).total() + new,
{
    proof {
        if wallet.supercoin < u64::MAX && wallet.idlecoin + new < 2 * COIN_WRAP {
            lemma_credit_total(*wallet, new);
        }
    }
    wallet.idlecoin = match wallet.idlecoin.checked_add(new) {
        Some(c) => c,
        None => {
            wallet.supercoin = wallet.supercoin.saturating_add(1);
            let x: u128 = (wallet.idlecoin as u128 + new as u128) % (COIN_WRAP as u128);
            x as u64
        },
    };
}

/// Takes `less` idlecoins from the wallet. When the idlecoins do not suffice,
/// one supercoin is broken into `COIN_WRAP` idlecoins; a wallet with no
/// supercoin is left with no idlecoins.
pub fn sub_idlecoins(wallet: &mut Wallet, less: u64)
    ensures
        *final(wallet) == spent(*old(wallet), less),
        final(wallet).total() == if old(wallet).total() >= less { old(wallet).total() - less } else { 0 },
{
    proof {
        lemma_spend_total(*wallet, less);
    }
    wallet.idlecoin = match wallet.idlecoin.checked_sub(less) {
        Some(c) => c,
        None => {
            if wallet.supercoin > 0 {
                wallet.supercoin = wallet.supercoin.saturating_sub(1);
                let x: u128 = COIN_WRAP as u128 - less as u128 + wallet.idlecoin as u128;
                x as u64
            } else {
                0
            }
        },
    };
}


/// Mining `a` seconds and then `b` more is mining `a + b` seconds.
pub proof fn lemma_sessions_add(m: Miner, a: nat, b: nat)
    ensures
        sessions(sessions(m, a), b) == sessions(m, a + b),
    decreases b,
{
    if b > 0 {
        lemma_sessions_add(m, a, (b - 1) as nat);
    }
}

/// A run of `a + b` seconds without overflow splits into a run of `a`
/// seconds and a run of `b` seconds from where the first left off.
pub proof fn lemma_sessions_fit_split(m: Miner, a: nat, b: nat)
    requires
        sessions_fit(m, a + b),
    ensures
        sessions_fit(m, a),
        sessions_fit(sessions(m, a), b),
{
    assert forall|k: nat| k < b implies session_fits(#[trigger] sessions(sessions(m, a), k)) by {
        lemma_sessions_add(m, a, k);
        assert(session_fits(sessions(m, a + k)));
    }
    assert forall|k: nat| k < a implies session_fits(#[trigger] sessions(m, k)) by {
        assert(k < a + b);
    }
}

/// The miner and its wallet after `n` seconds of mining, the wallet credited
/// the miner's coins per second after each second.
pub open spec fn mined(m: Miner, w: Wallet, n: nat) -> (Miner, Wallet)
    decreases n,
{
    if n == 0 {
        (m, w)
    } else {
        let (m1, w1) = mined(m, w, (n - 1) as nat);
        let m2 = after_session(m1);
        (m2, credited(w1, m2.cps))
    }
}

/// The wallet with its chronocoins replaced.
pub open spec fn with_chrono(w: Wallet, c: u64) -> Wallet {
    Wallet { chronocoin: c, ..w }
}

/// Mining does not touch the miner beyond `sessions`, nor the wallet's chronocoins.
pub proof fn lemma_mined(m: Miner, w: Wallet, n: nat, c: u64)
    ensures
        mined(m, w, n).0 == sessions(m, n),
        mined(m, w, n).1.chronocoin == w.chronocoin,
        mined(m, with_chrono(w, c), n) == (mined(m, w, n).0, with_chrono(mined(m, w, n).1, c)),
    decreases n,
{
    if n > 0 {
        lemma_mined(m, w, (n - 1) as nat, c);
    }
}

/// Mining `a` seconds and then `b` more is mining `a + b` seconds.
pub proof fn lemma_mined_add(m: Miner, w: Wallet, a: nat, b: nat)
    ensures
        mined(mined(m, w, a).0, mined(m, w, a).1, b) == mined(m, w, a + b),
    decreases b,
{
    if b > 0 {
        lemma_mined_add(m, w, a, (b - 1) as nat);
    }
}

/// Mines `n` seconds for a miner, crediting its wallet after each second.
pub fn mine_for(miner: &mut Miner, wallet: &mut Wallet, n: u64)
    requires
        sessions_fit(*old(miner), n as nat),
    ensures
        (*final(miner), *final(wallet)) == mined(*old(miner), *old(wallet), n as nat),
{
    let ghost m0 = *miner;
    let ghost w0 = *wallet;
    let mut i: u64 = 0;
    while i < n
        invariant
            i <= n,
            sessions_fit(m0, n as nat),
            (*miner, *wallet) == mined(m0, w0, i as nat),
        decreases n - i,
    {
        proof {
            lemma_mined(m0, w0, i as nat, 0);
        }
        assert(session_fits(sessions(m0, i as nat)));
        miner_session(miner);
        add_idlecoins(wallet, miner.cps);
        i = i + 1;
    }
}

/// Two runs without overflow, one after the other, make one run without overflow.
pub proof fn lemma_sessions_fit_join(m: Miner, a: nat, b: nat)
    requires
        sessions_fit(m, a),
        sessions_fit(sessions(m, a), b),
    ensures
        sessions_fit(m, a + b),
{
    assert forall|k: nat| k < a + b implies session_fits(#[trigger] sessions(m, k)) by {
        if k >= a {
            let j = (k - a) as nat;
            lemma_sessions_add(m, a, j);
            assert(session_fits(sessions(sessions(m, a), j)));
        }
    }
}

/// A miner never loses coins per second, boost seconds or levels by mining,
/// and uses up one boost second per second while it has any.
pub proof fn lemma_session_monotone(m: Miner)
    ensures
        after_session(m).cps >= m.cps,
        after_session(m).level >= m.level,
        m.boost > 0 ==> after_session(m).boost == m.boost - 1,
        m.boost == 0 ==> after_session(m).boost == 0,
        after_session(m).wallet_id == m.wallet_id,
        after_session(m).miner_id == m.miner_id,
{
}

/// Boost makes the coins per second grow three times as fast: while boost
/// seconds are left, a second adds three times the increase it adds
/// without them (short of the top of the range).
pub proof fn lemma_boost_triples(m: Miner)
    requires
        ready(m).cps + 3 * gain(m) <= u64::MAX,
    ensures
        m.boost > 0 ==> after_session(m).cps == ready(m).cps + 3 * gain(m),
        m.boost == 0 ==> after_session(m).cps == ready(m).cps + gain(m),
{
}

/// Time travel is mining: each second of it is one second of
/// `process_miner` for the miner and its own wallet.
pub proof fn lemma_time_travel_is_mining(m: Miner, w: Wallet, n: nat)
    requires
        n > 0,
        w.id == m.wallet_id,
    ensures
        ({
            let (m1, w1) = mined(m, w, (n - 1) as nat);
            let m2 = after_session(m1);
            mined(m, w, n) == (m2, credit_all(seq![w1], m1.wallet_id, m2.cps)[0])
        }),
{
    let (m1, w1) = mined(m, w, (n - 1) as nat);
    lemma_mined(m, w, (n - 1) as nat, 0);
    lemma_wallet_ids_kept(m, w, (n - 1) as nat);
    assert(sessions(m, (n - 1) as nat).wallet_id == m.wallet_id) by {
        lemma_sessions_keep_ids(m, (n - 1) as nat);
    }
}

/// Mining never changes which wallet a miner belongs to, nor its id.
pub proof fn lemma_sessions_keep_ids(m: Miner, n: nat)
    ensures
        sessions(m, n).wallet_id == m.wallet_id,
        sessions(m, n).miner_id == m.miner_id,
    decreases n,
{
    if n > 0 {
        lemma_sessions_keep_ids(m, (n - 1) as nat);
    }
}

/// Mining never changes a wallet's id.
pub proof fn lemma_wallet_ids_kept(m: Miner, w: Wallet, n: nat)
    ensures
        mined(m, w, n).1.id == w.id,
    decreases n,
{
    if n > 0 {
        lemma_wallet_ids_kept(m, w, (n - 1) as nat);
    }
}

/// The error of a second of mining whose arithmetic would overflow.
#[derive(Clone, Copy, Debug, PartialEq, Eq, Structural)]
pub struct SessionOverflow;

/// The wallets after each one with the given id was credited `amount`.
pub open spec fn credit_all(ws: Seq<Wallet>, id: u64, amount: u64) -> Seq<Wallet> {
    Seq::new(ws.len(), |i: int| if ws[i].id == id { credited(ws[i], amount) } else { ws[i] })
}

/// Credits `amount` idlecoins to every wallet with the given id.
pub fn credit_wallets(wallets: &mut Vec<Wallet>, id: u64, amount: u64)
    ensures
        final(wallets)@ == credit_all(old(wallets)@, id, amount),
{
    let ghost start = wallets@;
    let n = wallets.len();
    let mut i: usize = 0;
    while i < n
        invariant
            n == start.len(),
            wallets@.len() == n,
            i <= n,
            forall|j: int| 0 <= j < i ==> wallets@[j] == credit_all(start, id, amount)[j],
            forall|j: int| i <= j < n ==> wallets@[j] == start[j],
        decreases n - i,
    {
        if wallets[i].id == id {
            let mut w = wallets[i];
            add_idlecoins(&mut w, amount);
            wallets.set(i, w);
        }
        i = i + 1;
    }
    assert(wallets@ =~= credit_all(start, id, amount));
}

/// One second of mining for a connected miner: the miner mines a session and
/// its wallet is credited the miner's new coins per second. Where the session
/// would overflow, nothing changes and the error is returned.
pub fn process_miner(miner: &mut Miner, wallets: &mut Vec<Wallet>) -> (r: Result<(), SessionOverflow>)
    ensures
        r is Err <==> !session_fits(*old(miner)),
        r is Err ==> *final(miner) == *old(miner) && final(wallets)@ == old(wallets)@,
        r is Ok ==> *final(miner) == after_session(*old(miner)),
        r is Ok ==> final(wallets)@ == credit_all(old(wallets)@, old(miner).wallet_id, final(miner).cps),
{
    if !session_would_fit(miner) {
        return Err(SessionOverflow);
    }
    miner_session(miner);
    credit_wallets(wallets, miner.wallet_id, miner.cps);
    Ok(())
}

/// The miners after one second of mining each.
pub open spec fn sessioned(ms: Seq<Miner>) -> Seq<Miner> {
    Seq::new(ms.len(), |i: int| after_session(ms[i]))
}

/// Whether one second of mining runs without overflow for every miner.
pub open spec fn all_fit(ms: Seq<Miner>) -> bool {
    forall|i: int| 0 <= i < ms.len() ==> session_fits(#[trigger] ms[i])
}

/// The wallets after each miner, in order, credited its coins per second to
/// the wallets with its wallet id.
pub open spec fn credited_by(ws: Seq<Wallet>, ms: Seq<Miner>) -> Seq<Wallet>
    decreases ms.len(),
{
    if ms.len() == 0 {
        ws
    } else {
        credit_all(credited_by(ws, ms.drop_last()), ms.last().wallet_id, ms.last().cps)
    }
}

/// The sum of the coins per second of the miners of the wallet `id`.
pub open spec fn cps_sum(ms: Seq<Miner>, id: u64) -> int
    decreases ms.len(),
{
    if ms.len() == 0 {
        0
    } else {
        cps_sum(ms.drop_last(), id) + if ms.last().wallet_id == id { ms.last().cps as int } else { 0 }
    }
}

/// The number of miners of the wallet `id`.
pub open spec fn miner_count(ms: Seq<Miner>, id: u64) -> nat
    decreases ms.len(),
{
    if ms.len() == 0 {
        0
    } else {
        miner_count(ms.drop_last(), id) + if ms.last().wallet_id == id { 1nat } else { 0nat }
    }
}

/// Whether a credit of `n` idlecoins adds exactly `n` to the wallet's fortune
/// (see `lemma_credit_total`).
pub open spec fn credit_exact(w: Wallet, n: u64) -> bool {
    w.supercoin < u64::MAX && w.idlecoin + n < 2 * COIN_WRAP
}

/// Whether every credit made by the miners in turn adds exactly its amount
/// to the wallet it goes to.
pub open spec fn credits_exact(ws: Seq<Wallet>, ms: Seq<Miner>) -> bool
    decreases ms.len(),
{
    if ms.len() == 0 {
        true
    } else {
        &&& credits_exact(ws, ms.drop_last())
        &&& forall|i: int|
            0 <= i < ws.len() && (#[trigger] credited_by(ws, ms.drop_last())[i]).id == ms.last().wallet_id
                ==> credit_exact(credited_by(ws, ms.drop_last())[i], ms.last().cps)
    }
}

/// Crediting keeps the wallets, their number and their ids.
pub proof fn lemma_credited_by_ids(ws: Seq<Wallet>, ms: Seq<Miner>)
    ensures
        credited_by(ws, ms).len() == ws.len(),
        forall|i: int| 0 <= i < ws.len() ==> (#[trigger] credited_by(ws, ms)[i]).id == ws[i].id,
    decreases ms.len(),
{
    if ms.len() > 0 {
        lemma_credited_by_ids(ws, ms.drop_last());
    }
}

/// One second of mining over all connected miners raises each wallet's
/// fortune by the sum of the new coins per second of its miners, where no
/// credit saturates.
pub proof fn lemma_mining_fortune(ws: Seq<Wallet>, ms: Seq<Miner>)
    requires
        credits_exact(ws, ms),
    ensures
        forall|i: int|
            0 <= i < ws.len() ==> (#[trigger] credited_by(ws, ms)[i]).total() == ws[i].total() + cps_sum(ms, ws[i].id),
    decreases ms.len(),
{
    if ms.len() > 0 {
        let prev = credited_by(ws, ms.drop_last());
        lemma_mining_fortune(ws, ms.drop_last());
        lemma_credited_by_ids(ws, ms.drop_last());
        assert forall|i: int| 0 <= i < ws.len() implies (#[trigger] credited_by(ws, ms)[i]).total() == ws[i].total()
            + cps_sum(ms, ws[i].id) by {
            assert(prev[i].total() == ws[i].total() + cps_sum(ms.drop_last(), ws[i].id));
            if prev[i].id == ms.last().wallet_id {
                assert(credit_exact(prev[i], ms.last().cps));
                lemma_credit_total(prev[i], ms.last().cps);
            }
        }
    }
}

/// One second of mining for all connected miners: each mines a session, and
/// then, in turn, its wallets are credited its new coins per second. Where a
/// session would overflow, nothing changes and the error is returned.
pub fn process_miners(miners: &mut Vec<Miner>, wallets: &mut Vec<Wallet>) -> (r: Result<(), SessionOverflow>)
    ensures
        r is Err <==> !all_fit(old(miners)@),
        r is Err ==> final(miners)@ == old(miners)@ && final(wallets)@ == old(wallets)@,
        r is Ok ==> final(miners)@ == sessioned(old(miners)@),
        r is Ok ==> final(wallets)@ == credited_by(old(wallets)@, sessioned(old(miners)@)),
{
    let n = miners.len();
    let mut k: usize = 0;
    while k < n
        invariant
            n == miners@.len(),
            miners@ == old(miners)@,
            wallets@ == old(wallets)@,
            k <= n,
            forall|j: int| 0 <= j < k ==> session_fits(#[trigger] miners@[j]),
        decreases n - k,
    {
        if !session_would_fit(&miners[k]) {
            return Err(SessionOverflow);
        }
        k = k + 1;
    }
    let ghost ms0 = miners@;
    let ghost ws0 = wallets@;
    let mut i: usize = 0;
    while i < n
        invariant
            n == ms0.len(),
            miners@.len() == n,
            all_fit(ms0),
            i <= n,
            forall|j: int| 0 <= j < i ==> miners@[j] == after_session(ms0[j]),
            forall|j: int| i <= j < n ==> miners@[j] == ms0[j],
            wallets@ == credited_by(ws0, sessioned(ms0).take(i as int)),
        decreases n - i,
    {
        let mut m = miners[i];
        assert(session_fits(ms0[i as int]));
        miner_session(&mut m);
        miners.set(i, m);
        credit_wallets(wallets, m.wallet_id, m.cps);
        proof {
            let t = sessioned(ms0).take(i + 1);
            assert(t.drop_last() =~= sessioned(ms0).take(i as int));
            assert(t.last() == m);
        }
        i = i + 1;
    }
    proof {
        assert(sessioned(ms0).take(n as int) =~= sessioned(ms0));
        assert(miners@ =~= sessioned(ms0));
    }
    Ok(())
}

/// What a random roll does to a miner.
#[derive(Clone, Copy, Debug, PartialEq, Eq, Structural)]
pub enum Roll {
    /// the tax office takes a tenth of the wallet
    Audit,
    /// the miner loses a level
    LevelDown,
    /// the miner gains a level
    LevelUp,
    /// the miner's coins per second grow by a tenth
    CpsBoost,
    /// nothing happens
    Quiet,
}

/// What happened, as told to the players.
#[derive(Clone, Copy, Debug, PartialEq, Eq, Structural)]
pub enum MinerEvent {
    /// a wallet of the miner was taxed a tenth
    Taxed,
    /// the miner lost a level
    LostLevel,
    /// the miner gained a level
    LeveledUp,
    /// the miner's coins per second grew by a tenth
    CpsBoost,
}

/// Rolls are drawn from all `u64` values: one in 15 552 000 is an audit, one
/// in ten thousand loses a level, two in ten thousand gain one, one in ten
/// thousand raises the coins per second.
pub open spec fn roll_of(x: u64) -> Roll {
    if x % 15552000 == 0 {
        Roll::Audit
    } else if x % 10000 == 0 {
        Roll::LevelDown
    } else if x % 10000 <= 2 {
        Roll::LevelUp
    } else if x % 10000 <= 3 {
        Roll::CpsBoost
    } else {
        Roll::Quiet
    }
}

/// The wallet after the tax office took a tenth of its supercoins and of its idlecoins.
pub open spec fn taxed(w: Wallet) -> Wallet {
    Wallet { supercoin: (w.supercoin - w.supercoin / 10) as u64, idlecoin: (w.idlecoin - w.idlecoin / 10) as u64, ..w }
}

/// Takes a tenth of the wallet's supercoins and of its idlecoins.
pub fn audit_wallet(wallet: &mut Wallet)
    ensures
        *final(wallet) == taxed(*old(wallet)),
{
    wallet.supercoin = wallet.supercoin - wallet.supercoin / 10;
    let coins = wallet.idlecoin / 10;
    sub_idlecoins(wallet, coins);
}

/// Whether the roll `x` can be applied to the miner without overflow.
pub open spec fn roll_fits(x: u64, m: Miner) -> bool {
    roll_of(x) == Roll::CpsBoost ==> m.cps + m.cps / 10 <= u64::MAX
}

/// The wallets after every one with the given id was audited.
pub open spec fn audit_all(ws: Seq<Wallet>, id: u64) -> Seq<Wallet> {
    Seq::new(ws.len(), |i: int| if ws[i].id == id { taxed(ws[i]) } else { ws[i] })
}

/// The number of wallets with the given id.
pub open spec fn count_id(ws: Seq<Wallet>, id: u64) -> nat
    decreases ws.len(),
{
    if ws.len() == 0 {
        0
    } else {
        count_id(ws.drop_last(), id) + if ws.last().id == id { 1nat } else { 0nat }
    }
}

/// The miner after the roll `x`.
pub open spec fn rolled_miner(x: u64, m: Miner) -> Miner {
    match roll_of(x) {
        Roll::LevelDown => leveled_down(m),
        Roll::LevelUp => leveled_up(m),
        Roll::CpsBoost => Miner { cps: (m.cps + m.cps / 10) as u64, ..m },
        _ => m,
    }
}

/// The wallets after the roll `x` of a miner of the wallet `id`.
pub open spec fn rolled_wallets(x: u64, id: u64, ws: Seq<Wallet>) -> Seq<Wallet> {
    if roll_of(x) == Roll::Audit { audit_all(ws, id) } else { ws }
}

/// The events that the roll `x` tells the players of.
pub open spec fn rolled_events(x: u64, m: Miner, ws: Seq<Wallet>) -> Seq<MinerEvent> {
    match roll_of(x) {
        Roll::Audit => Seq::new(count_id(ws, m.wallet_id), |i: int| MinerEvent::Taxed),
        Roll::LevelDown => if leveled_down(m).level != m.level { seq![MinerEvent::LostLevel] } else { seq![] },
        Roll::LevelUp => if leveled_up(m).level != m.level { seq![MinerEvent::LeveledUp] } else { seq![] },
        Roll::CpsBoost => seq![MinerEvent::CpsBoost],
        Roll::Quiet => seq![],
    }
}

/// Audits every wallet with the given id; returns one `Taxed` event per wallet audited.
pub fn audit_wallets(wallets: &mut Vec<Wallet>, id: u64) -> (events: Vec<MinerEvent>)
    ensures
        final(wallets)@ == audit_all(old(wallets)@, id),
        events@ == Seq::new(count_id(old(wallets)@, id), |i: int| MinerEvent::Taxed),
{
    let ghost start = wallets@;
    let mut events: Vec<MinerEvent> = Vec::new();
    let n = wallets.len();
    let mut i: usize = 0;
    while i < n
        invariant
            n == start.len(),
            wallets@.len() == n,
            i <= n,
            forall|j: int| 0 <= j < i ==> wallets@[j] == audit_all(start, id)[j],
            forall|j: int| i <= j < n ==> wallets@[j] == start[j],
            events@ == Seq::new(count_id(start.take(i as int), id), |k: int| MinerEvent::Taxed),
        decreases n - i,
    {
        assert(start.take(i + 1).drop_last() =~= start.take(i as int));
        if wallets[i].id == id {
            let mut w = wallets[i];
            audit_wallet(&mut w);
            wallets.set(i, w);
            events.push(MinerEvent::Taxed);
        }
        i = i + 1;
        assert(events@ =~= Seq::new(count_id(start.take(i as int), id), |k: int| MinerEvent::Taxed));
    }
    assert(start.take(n as int) =~= start);
    assert(wallets@ =~= audit_all(start, id));
    events
}

/// Applies the roll `x` to a miner and the wallets: an audit taxes every
/// wallet of the miner, the other rolls change the miner. Returns the events
/// to tell the players of.
pub fn apply_roll(x: u64, miner: &mut Miner, wallets: &mut Vec<Wallet>) -> (events: Vec<MinerEvent>)
    requires
        roll_fits(x, *old(miner)),
    ensures
        *final(miner) == rolled_miner(x, *old(miner)),
        final(wallets)@ == rolled_wallets(x, old(miner).wallet_id, old(wallets)@),
        events@ == rolled_events(x, *old(miner), old(wallets)@),
{
    if x % 15552000 == 0 {
        audit_wallets(wallets, miner.wallet_id)
    } else if x % 10000 == 0 {
        let level = miner.level;
        dec_level(miner);
        let mut events: Vec<MinerEvent> = Vec::new();
        if level != miner.level {
            events.push(MinerEvent::LostLevel);
        }
        events
    } else if x % 10000 <= 2 {
        let level = miner.level;
        inc_level(miner);
        let mut events: Vec<MinerEvent> = Vec::new();
        if level != miner.level {
            events.push(MinerEvent::LeveledUp);
        }
        events
    } else if x % 10000 <= 3 {
        miner.cps = miner.cps + miner.cps / 10;
        let mut events: Vec<MinerEvent> = Vec::new();
        events.push(MinerEvent::CpsBoost);
        assert(events@ =~= seq![MinerEvent::CpsBoost]);
        events
    } else {
        Vec::new()
    }
}

/// The error of a roll that would push a miner's coins per second past the top of the range.
#[derive(Clone, Copy, Debug, PartialEq, Eq, Structural)]
pub struct CpsOverflow;

/// The odds of the rolls: one roll in 15 552 000 is an audit; of the other
/// rolls, those with `x % 10000 == 0` lose a level (one in ten thousand),
/// those with `x % 10000` of 1 or 2 gain one (two in ten thousand), those
/// with `x % 10000 == 3` raise the coins per second (one in ten thousand),
/// and all others are quiet.
pub proof fn lemma_roll_odds(x: u64)
    ensures
        roll_of(x) == Roll::Audit <==> x % 15552000 == 0,
        roll_of(x) == Roll::LevelDown <==> x % 15552000 != 0 && x % 10000 == 0,
        roll_of(x) == Roll::LevelUp <==> x % 15552000 != 0 && (x % 10000 == 1 || x % 10000 == 2),
        roll_of(x) == Roll::CpsBoost <==> x % 15552000 != 0 && x % 10000 == 3,
        roll_of(x) == Roll::Quiet <==> x % 15552000 != 0 && x % 10000 > 3,
{
}

/// What each roll does, field by field: a quiet roll changes nothing and
/// tells nothing; losing a level lowers it by one (not below 0) and divides
/// the next-level mark by ten; gaining one raises it by one (not past the
/// top) and multiplies the mark by ten (saturating); the coins-per-second
/// roll adds a tenth of them; only an audit touches the wallets, and only
/// those of the miner.
pub proof fn lemma_roll_effects(x: u64, m: Miner, ws: Seq<Wallet>)
    ensures
        ({
            let m2 = rolled_miner(x, m);
            let ws2 = rolled_wallets(x, m.wallet_id, ws);
            let ev = rolled_events(x, m, ws);
            &&& m2.wallet_id == m.wallet_id && m2.miner_id == m.miner_id && m2.boost == m.boost
            &&& ws2.len() == ws.len()
            &&& x % 15552000 != 0 ==> ws2 == ws
            &&& forall|i: int| 0 <= i < ws.len() && ws[i].id != m.wallet_id ==> #[trigger] ws2[i] == ws[i]
            &&& (x % 15552000 != 0 && x % 10000 > 3) ==> m2 == m && ev.len() == 0
            &&& (x % 15552000 != 0 && x % 10000 == 0) ==> {
                &&& m2.level == if m.level > 0 { m.level - 1 } else { 0 }
                &&& m2.pow == m.pow / 10
                &&& m2.cps == m.cps
                &&& ev.len() <= 1
                &&& (ev.len() == 1 <==> m.level > 0)
            }
            &&& (x % 15552000 != 0 && (x % 10000 == 1 || x % 10000 == 2)) ==> {
                &&& m2.level == if m.level < u64::MAX { m.level + 1 } else { u64::MAX as int }
                &&& m2.pow == if m.pow * 10 <= u64::MAX { m.pow * 10 } else { u64::MAX as int }
                &&& m2.cps == m.cps
                &&& (ev.len() == 1 <==> m.level < u64::MAX)
            }
            &&& (x % 15552000 != 0 && x % 10000 == 3) ==> {
                &&& roll_fits(x, m) ==> m2.cps == m.cps + m.cps / 10
                &&& m2.level == m.level
                &&& ev.len() == 1
            }
        }),
{
    lemma_roll_odds(x);
}

/// What `roll_miner` does when the drawn roll is `x`.
pub open spec fn roll_outcome(
    x: u64,
    m: Miner,
    ws: Seq<Wallet>,
    r: Result<Vec<MinerEvent>, CpsOverflow>,
    m2: Miner,
    ws2: Seq<Wallet>,
) -> bool {
    &&& r is Err <==> !roll_fits(x, m)
    &&& r is Err ==> m2 == m && ws2 == ws
    &&& r matches Ok(events) ==> {
        &&& m2 == rolled_miner(x, m)
        &&& ws2 == rolled_wallets(x, m.wallet_id, ws)
        &&& events@ == rolled_events(x, m, ws)
    }
}

/// Draws a random roll for a miner and applies it (see `apply_roll`). Where
/// the roll raises the coins per second past the top of the range, nothing
/// changes and the error is returned.
pub fn roll_miner(miner: &mut Miner, wallets: &mut Vec<Wallet>) -> (r: Result<Vec<MinerEvent>, CpsOverflow>)
    ensures
        exists|x: u64| #[trigger] roll_outcome(x, *old(miner), old(wallets)@, r, *final(miner), final(wallets)@),
{
    let ghost m0 = *miner;
    let ghost ws0 = wallets@;
    let x = crate::random::random_u64();
    let boost = x % 15552000 != 0 && x % 10000 != 0 && x % 10000 > 2 && x % 10000 <= 3;
    if boost && miner.cps.checked_add(miner.cps / 10).is_none() {
        let r = Err(CpsOverflow);
        assert(roll_outcome(x, m0, ws0, r, *miner, wallets@));
        return r;
    }
    let r = Ok(apply_roll(x, miner, wallets));
    assert(roll_outcome(x, m0, ws0, r, *miner, wallets@));
    r
}

} // verus!
