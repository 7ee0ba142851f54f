use vstd::prelude::*;
use crate::wallet::{Wallet, sat_add, RANDOCOIN_PRIZE};
use crate::miner::{Miner, BOOST_MAX, cps_sum, miner_count};
use crate::commands::{
    PurchaseType, Purchase, UpgradeList, PurchaseError, miner_step, boost_step, time_step, time_all, BOOST_MIN_CPS,
};
use crate::commands::{
    boost_cost, boost_max_cost, miner_cost, time_cost, time_max_cost, top_bit, miner_price,
    lemma_miner_price_bounded, ABS_MAX_MINERS, BOOST_BUNDLE, TIME_COST,
};

verus! {

/// The most events kept and shown.
pub const ABS_MAX_EVENTS: usize = 5;

/// The wallets after every one whose id is live earned a chronocoin.
pub open spec fn chrono_ticked(ws: Seq<Wallet>, live: Seq<u64>) -> Seq<Wallet> {
    Seq::new(
        ws.len(),
        |i: int|
            if live.contains(ws[i].id) {
                Wallet { chronocoin: sat_add(ws[i].chronocoin as int, 1), ..ws[i] }
            } else {
                ws[i]
            },
    )
}

/// Whether `x` occurs in `s`.
pub fn contains_id(s: &Vec<u64>, x: u64) -> (r: bool)
    ensures
        r == s@.contains(x),
{
    let n = s.len();
    let mut i: usize = 0;
    while i < n
        invariant
            n == s@.len(),
            i <= n,
            forall|j: int| 0 <= j < i ==> s@[j] != x,
        decreases n - i,
    {
        if s[i] == x {
            assert(s@[i as int] == x);
            return true;
        }
        i = i + 1;
    }
    false
}

/// Every wallet with a connected miner earns one chronocoin; `live` holds
/// the wallet ids of the connected miners.
pub fn increment_chrono(live: &Vec<u64>, wallets: &mut Vec<Wallet>)
    ensures
        final(wallets)@ == chrono_ticked(old(wallets)@, live@),
{
    let ghost ws = wallets@;
    let n = wallets.len();
    let mut i: usize = 0;
    while i < n
        invariant
            n == ws.len(),
            wallets@.len() == n,
            i <= n,
            forall|j: int| 0 <= j < i ==> wallets@[j] == chrono_ticked(ws, live@)[j],
            forall|j: int| i <= j < n ==> wallets@[j] == ws[j],
        decreases n - i,
    {
        if contains_id(live, wallets[i].id) {
            let mut w = wallets[i];
            w.inc_chronocoins();
            wallets.set(i, w);
        }
        i = i + 1;
    }
    assert(wallets@ =~= chrono_ticked(ws, live@));
}

/// The distinct values of `s`, in the order of their first occurrence.
pub open spec fn dedup(s: Seq<u64>) -> Seq<u64>
    decreases s.len(),
{
    if s.len() == 0 {
        seq![]
    } else {
        let d = dedup(s.drop_last());
        if d.contains(s.last()) { d } else { d.push(s.last()) }
    }
}

/// `dedup(s)` holds each value of `s` exactly once.
pub proof fn lemma_dedup(s: Seq<u64>)
    ensures
        dedup(s).no_duplicates(),
        forall|x: u64| dedup(s).contains(x) <==> s.contains(x),
    decreases s.len(),
{
    if s.len() > 0 {
        lemma_dedup(s.drop_last());
        let d = dedup(s.drop_last());
        let ds = dedup(s);
        let last = s.last();
        assert forall|x: u64| s.contains(x) implies ds.contains(x) by {
            let k = choose|k: int| 0 <= k < s.len() && s[k] == x;
            if k < s.len() - 1 {
                assert(s.drop_last()[k] == x);
                assert(s.drop_last().contains(x));
                assert(d.contains(x));
                let j = choose|j: int| 0 <= j < d.len() && d[j] == x;
                if !d.contains(last) {
                    assert(ds[j] == x);
                }
            } else {
                if !d.contains(last) {
                    assert(ds[d.len() as int] == x);
                }
            }
        }
        assert forall|x: u64| ds.contains(x) implies s.contains(x) by {
            let j = choose|j: int| 0 <= j < ds.len() && ds[j] == x;
            if j < d.len() {
                assert(d[j] == x);
                assert(d.contains(x));
                assert(s.drop_last().contains(x));
                let k = choose|k: int| 0 <= k < s.drop_last().len() && s.drop_last()[k] == x;
                assert(s[k] == x);
            } else {
                assert(s[s.len() - 1] == x);
            }
        }
        if !d.contains(last) {
            assert forall|p: int, q: int| 0 <= p < ds.len() && 0 <= q < ds.len() && p != q implies ds[p] != ds[q] by {
                if q == d.len() {
                    assert(d[p] == ds[p]);
                } else if p == d.len() {
                    assert(d[q] == ds[q]);
                }
            }
        }
    }
}

/// The distinct wallet ids of the connected miners, in the order of their
/// first connection.
pub fn live_wallets(connected: &Vec<u64>) -> (live: Vec<u64>)
    ensures
        live@ == dedup(connected@),
{
    let mut live: Vec<u64> = Vec::new();
    let n = connected.len();
    let mut i: usize = 0;
    while i < n
        invariant
            n == connected@.len(),
            i <= n,
            live@ == dedup(connected@.take(i as int)),
        decreases n - i,
    {
        assert(connected@.take(i + 1).drop_last() =~= connected@.take(i as int));
        let id = connected[i];
        if !contains_id(&live, id) {
            live.push(id);
        }
        i = i + 1;
    }
    assert(connected@.take(n as int) =~= connected@);
    live
}

/// The wallets after every one with the id `winner` won the randocoin prize.
pub open spec fn rando_awarded(ws: Seq<Wallet>, winner: u64) -> Seq<Wallet> {
    Seq::new(
        ws.len(),
        |i: int|
            if ws[i].id == winner {
                Wallet { randocoin: sat_add(ws[i].randocoin as int, RANDOCOIN_PRIZE as int), ..ws[i] }
            } else {
                ws[i]
            },
    )
}

/// Gives the randocoin prize to every wallet with the id `winner`.
pub fn award_randocoins(wallets: &mut Vec<Wallet>, winner: u64)
    ensures
        final(wallets)@ == rando_awarded(old(wallets)@, winner),
{
    let ghost ws = wallets@;
    let n = wallets.len();
    let mut i: usize = 0;
    while i < n
        invariant
            n == ws.len(),
            wallets@.len() == n,
            i <= n,
            forall|j: int| 0 <= j < i ==> wallets@[j] == rando_awarded(ws, winner)[j],
            forall|j: int| i <= j < n ==> wallets@[j] == ws[j],
        decreases n - i,
    {
        if wallets[i].id == winner {
            let mut w = wallets[i];
            w.inc_randocoins();
            wallets.set(i, w);
        }
        i = i + 1;
    }
    assert(wallets@ =~= rando_awarded(ws, winner));
}

/// The live wallet at position `x` modulo their number.
pub fn pick_winner(live: &Vec<u64>, x: u64) -> (winner: u64)
    requires
        live@.len() > 0,
    ensures
        winner == live@[(x % live@.len() as u64) as int],
{
    let n = live.len() as u64;
    live[(x % n) as usize]
}

/// The randocoin draw: one of the wallets with a connected miner, drawn at
/// random, wins the prize. `connected` holds the wallet ids of the connected
/// miners; with none connected there is no draw and nothing changes.
pub fn increment_rando(connected: &Vec<u64>, wallets: &mut Vec<Wallet>) -> (r: Option<u64>)
    ensures
        r is None <==> connected@.len() == 0,
        r is None ==> final(wallets)@ == old(wallets)@,
        r matches Some(winner) ==> {
            &&& connected@.contains(winner)
            &&& exists|x: u64| winner == #[trigger] dedup(connected@)[(x % dedup(connected@).len() as u64) as int]
            &&& final(wallets)@ == rando_awarded(old(wallets)@, winner)
        },
{
    let live = live_wallets(connected);
    proof {
        lemma_dedup(connected@);
        if connected@.len() > 0 {
            assert(connected@.contains(connected@[0]));
        }
        if live@.len() > 0 {
            assert(live@.contains(live@[0]));
        }
    }
    if live.len() == 0 {
        return None;
    }
    let x = crate::random::random_u64();
    let winner = pick_winner(&live, x);
    proof {
        let k = (x % live@.len() as u64) as int;
        assert(live@.contains(live@[k]));
    }
    award_randocoins(wallets, winner);
    Some(winner)
}

/// The order in which wallets are ranked: by supercoins, then by
/// idlecoins, then by position.
pub open spec fn ranks_before(ws: Seq<Wallet>, a: int, b: int) -> bool {
    ||| ws[a].supercoin < ws[b].supercoin
    ||| ws[a].supercoin == ws[b].supercoin && ws[a].idlecoin < ws[b].idlecoin
    ||| ws[a].supercoin == ws[b].supercoin && ws[a].idlecoin == ws[b].idlecoin && a < b
}

/// Whether `order` lists positions of `ws`, each in `ranks_before` order
/// before the next.
pub open spec fn ranked(ws: Seq<Wallet>, order: Seq<usize>) -> bool {
    &&& forall|p: int| 0 <= p < order.len() ==> order[p] < ws.len()
    &&& forall|p: int, q: int| 0 <= p < q < order.len() ==> ranks_before(ws, order[p] as int, order[q] as int)
}

/// Whether wallet `a` holds less than wallet `b`: fewer supercoins, or as
/// many and fewer idlecoins.
pub fn fortune_lt(a: &Wallet, b: &Wallet) -> (r: bool)
    ensures
        r == (a.supercoin < b.supercoin || (a.supercoin == b.supercoin && a.idlecoin < b.idlecoin)),
{
    a.supercoin < b.supercoin || (a.supercoin == b.supercoin && a.idlecoin < b.idlecoin)
}

/// The positions of the wallets, poorest first: sorted by supercoins, then
/// by idlecoins, wallets of equal fortune in their original order. The
/// scoreboard numbers a wallet by its place counted from the richest.
pub fn rank_wallets(wallets: &Vec<Wallet>) -> (order: Vec<usize>)
    ensures
        order@.len() == wallets@.len(),
        ranked(wallets@, order@),
{
    let ghost ws = wallets@;
    let mut order: Vec<usize> = Vec::new();
    let n = wallets.len();
    let mut i: usize = 0;
    while i < n
        invariant
            n == ws.len(),
            wallets@ == ws,
            i <= n,
            order@.len() == i,
            forall|p: int| 0 <= p < order@.len() ==> order@[p] < i,
            forall|p: int, q: int| 0 <= p < q < order@.len() ==> ranks_before(ws, order@[p] as int, order@[q] as int),
        decreases n - i,
    {
        let w = wallets[i];
        let mut j: usize = 0;
        while j < order.len() && !fortune_lt(&w, &wallets[order[j]])
            invariant
                n == ws.len(),
                wallets@ == ws,
                i < n,
                w == ws[i as int],
                j <= order@.len(),
                order@.len() == i,
                forall|p: int| 0 <= p < order@.len() ==> order@[p] < i,
                forall|p: int| 0 <= p < j ==> ranks_before(ws, order@[p] as int, i as int),
            decreases order@.len() - j,
        {
            j = j + 1;
        }
        let ghost before = order@;
        proof {
            assert forall|q: int| j <= q < before.len() implies ranks_before(ws, i as int, before[q] as int) by {
                if q > j {
                    assert(ranks_before(ws, before[j as int] as int, before[q] as int));
                }
            }
        }
        order.insert(j, i);
        proof {
            assert forall|p: int, q: int| 0 <= p < q < order@.len() implies ranks_before(ws, order@[p] as int, order@[q] as int) by {
                if p < j && q == j {
                } else if p < j && q > j {
                    assert(order@[q] == before[q - 1]);
                } else if p == j {
                    assert(order@[q] == before[q - 1]);
                } else if p > j {
                    assert(order@[q] == before[q - 1]);
                    assert(order@[p] == before[p - 1]);
                }
            }
        }
        i = i + 1;
    }
    order
}

/// A wallet block of the scoreboard: its place in the ranking (0 for the
/// poorest; shown as the number of wallets minus the place), its position
/// among the wallets and the sum of its miners' coins per second.
#[derive(Clone, Copy, Debug, PartialEq, Eq, Structural)]
pub struct ScoreLine {
    pub place: usize,
    pub wallet: usize,
    pub total_cps: u128,
}

/// The scoreboard's blocks: the wallets in ranking order, each with at least
/// one connected miner; the wallets without one keep their places, unshown.
pub open spec fn shown_lines(ws: Seq<Wallet>, order: Seq<usize>, ms: Seq<Miner>) -> Seq<ScoreLine>
    decreases order.len(),
{
    if order.len() == 0 {
        seq![]
    } else {
        let rest = shown_lines(ws, order.drop_last(), ms);
        let k = order.len() - 1;
        let id = ws[order.last() as int].id;
        if miner_count(ms, id) > 0 {
            rest.push(ScoreLine { place: k as usize, wallet: order.last(), total_cps: cps_sum(ms, id) as u128 })
        } else {
            rest
        }
    }
}

/// The number of miners of the wallet `id` and the sum of their coins per second.
pub fn miners_of(miners: &Vec<Miner>, id: u64) -> (r: (usize, u128))
    ensures
        r.0 == miner_count(miners@, id),
        r.1 == cps_sum(miners@, id),
{
    let n = miners.len();
    let mut count: usize = 0;
    let mut sum: u128 = 0;
    let mut j: usize = 0;
    while j < n
        invariant
            n == miners@.len(),
            j <= n,
            count == miner_count(miners@.take(j as int), id),
            sum == cps_sum(miners@.take(j as int), id),
            count <= j,
            sum <= j * (u64::MAX as int),
        decreases n - j,
    {
        assert(miners@.take(j + 1).drop_last() =~= miners@.take(j as int));
        if miners[j].wallet_id == id {
            assert(sum + miners@[j as int].cps <= (j + 1) * (u64::MAX as int));
            assert((j + 1) * (u64::MAX as int) <= u128::MAX) by (nonlinear_arith)
                requires
                    j < n,
                    n <= usize::MAX,
                    usize::MAX <= u64::MAX,
            ;
            count = count + 1;
            sum = sum + miners[j].cps as u128;
        }
        j = j + 1;
    }
    assert(miners@.take(n as int) =~= miners@);
    (count, sum)
}

/// The scoreboard's blocks (see `shown_lines`) for the ranking `order`
/// (from `rank_wallets`) and the connected miners.
pub fn scoreboard(wallets: &Vec<Wallet>, order: &Vec<usize>, miners: &Vec<Miner>) -> (lines: Vec<ScoreLine>)
    requires
        forall|p: int| 0 <= p < order@.len() ==> order@[p] < wallets@.len(),
    ensures
        lines@ == shown_lines(wallets@, order@, miners@),
{
    let mut lines: Vec<ScoreLine> = Vec::new();
    let n = order.len();
    let mut k: usize = 0;
    while k < n
        invariant
            n == order@.len(),
            k <= n,
            forall|p: int| 0 <= p < order@.len() ==> order@[p] < wallets@.len(),
            lines@ == shown_lines(wallets@, order@.take(k as int), miners@),
        decreases n - k,
    {
        proof {
            let t = order@.take(k + 1);
            assert(t.drop_last() =~= order@.take(k as int));
            assert(t.last() == order@[k as int]);
        }
        let pos = order[k];
        let (count, total) = miners_of(miners, wallets[pos].id);
        if count > 0 {
            lines.push(ScoreLine { place: k, wallet: pos, total_cps: total });
        }
        k = k + 1;
    }
    assert(order@.take(n as int) =~= order@);
    lines
}

/// A line of the purchase menu shown to a miner.
#[derive(Clone, Copy, Debug, PartialEq, Eq, Structural)]
pub enum Offer {
    /// the menu's heading
    Header,
    /// one boost bundle for `cost` idlecoins, boost up to the limit for `max_cost`
    Boost { cost: u64, max_cost: u64 },
    /// one miner licence for `cost` idlecoins
    Miner { cost: u64 },
    /// one hour of time travel for `cost` chronocoins, all hours for `max_cost`
    Time { cost: u64, max_cost: u64 },
}

/// The error of a menu whose prices would overflow.
#[derive(Clone, Copy, Debug, PartialEq, Eq, Structural)]
pub struct OfferOverflow;

/// Whether the wallet is rich enough to be shown the idlecoin menu.
pub open spec fn shows_menu(w: Wallet) -> bool {
    w.idlecoin > 1024 || w.supercoin > 1
}

/// Whether the menu's prices can be computed.
pub open spec fn offers_fit(w: Wallet, m: Miner) -> bool {
    shows_menu(w) ==> {
        &&& w.max_miners <= 25
        &&& m.cps > 1024 ==> m.boost <= BOOST_MAX
            && top_bit(m.cps as nat) * ((BOOST_MAX - m.boost) / BOOST_BUNDLE as int) <= u64::MAX
    }
}

/// The menu lines that a rich enough wallet is shown.
pub open spec fn idlecoin_offers(w: Wallet, m: Miner) -> Seq<Offer> {
    let boost = if m.cps > 1024 {
        seq![Offer::Boost {
            cost: top_bit(m.cps as nat) as u64,
            max_cost: (top_bit(m.cps as nat) * ((BOOST_MAX - m.boost) / BOOST_BUNDLE as int)) as u64,
        }]
    } else {
        seq![]
    };
    let licence = if w.max_miners < ABS_MAX_MINERS && (w.idlecoin > miner_price(w.max_miners) || w.supercoin > 1) {
        seq![Offer::Miner { cost: miner_price(w.max_miners) as u64 }]
    } else {
        seq![]
    };
    seq![Offer::Header] + boost + licence
}

/// The menu for one second, built afresh: a rich enough wallet is shown the
/// idlecoin menu (boost for a miner above 1024 coins per second, a licence
/// while the wallet can hold more and can pay); an hour of time travel is
/// offered once whenever the wallet holds more chronocoins than one costs.
pub open spec fn menu_for(w: Wallet, m: Miner) -> Seq<Offer> {
    let base = if shows_menu(w) { idlecoin_offers(w, m) } else { seq![] };
    if w.chronocoin > TIME_COST {
        base.push(Offer::Time { cost: TIME_COST, max_cost: ((w.chronocoin / TIME_COST) * TIME_COST) as u64 })
    } else {
        base
    }
}

/// Rebuilds the purchase menu of a miner for the second (see `menu_for`);
/// the menu of the second before is replaced. Where a price would overflow,
/// nothing changes and the error is returned.
pub fn update_offers(offers: &mut Vec<Offer>, wallet: &Wallet, miner: &Miner) -> (r: Result<(), OfferOverflow>)
    ensures
        r is Err <==> !offers_fit(*wallet, *miner),
        r is Err ==> final(offers)@ == old(offers)@,
        r is Ok ==> final(offers)@ == menu_for(*wallet, *miner),
{
    let shows = wallet.idlecoin > 1024 || wallet.supercoin > 1;
    let mut menu: Vec<Offer> = Vec::new();
    if shows {
        if wallet.max_miners > 25 {
            return Err(OfferOverflow);
        }
        if miner.cps > 1024 {
            if miner.boost > BOOST_MAX {
                return Err(OfferOverflow);
            }
            let cost = boost_cost(miner.cps);
            if cost.checked_mul((BOOST_MAX - miner.boost) / BOOST_BUNDLE).is_none() {
                return Err(OfferOverflow);
            }
        }
        menu.push(Offer::Header);
        if miner.cps > 1024 {
            menu.push(Offer::Boost { cost: boost_cost(miner.cps), max_cost: boost_max_cost(miner.cps, miner.boost) });
        }
        let miner_cost = miner_cost(wallet.max_miners);
        if wallet.max_miners < ABS_MAX_MINERS && (wallet.idlecoin > miner_cost || wallet.supercoin > 1) {
            menu.push(Offer::Miner { cost: miner_cost });
        }
        proof {
            lemma_miner_price_bounded(wallet.max_miners);
            assert(menu@ =~= idlecoin_offers(*wallet, *miner));
        }
    } else {
        assert(menu@ =~= Seq::<Offer>::empty());
    }
    if wallet.chronocoin > time_cost() {
        menu.push(Offer::Time { cost: time_cost(), max_cost: time_max_cost(wallet.chronocoin) });
    }
    *offers = menu;
    Ok(())
}

/// The menu lists each kind of offer at most once, so at most four lines.
/// (`update_offers` builds it from the wallet and miner alone, so rebuilding
/// it for the same wallet and miner gives the same menu.)
pub proof fn lemma_menu_lists_each_offer_once(w: Wallet, m: Miner)
    ensures
        menu_for(w, m).len() <= 4,
        forall|i: int, j: int|
            0 <= i < j < menu_for(w, m).len() ==> !same_kind(#[trigger] menu_for(w, m)[i], #[trigger] menu_for(w, m)[j]),
{
}

/// The menu offers only what can be bought, at the price it is sold for: a
/// licence offered is bought by `m` at the price shown (the wallet holds
/// fewer than `ABS_MAX_MINERS` licences and can pay); boost offered is sold
/// by `b` at the price shown unless the miner is full or the wallet short of
/// that price, and never refused for too few coins per second; time travel
/// offered is bought by `c` at the price shown, and `C` buys the hours at the
/// total shown.
pub proof fn lemma_menu_matches_purchases(w: Wallet, m: Miner)
    ensures
        forall|i: int|
            #![trigger menu_for(w, m)[i]]
            0 <= i < menu_for(w, m).len() ==> {
                &&& menu_for(w, m)[i] matches Offer::Miner { cost } ==> {
                    &&& w.max_miners < ABS_MAX_MINERS
                    &&& miner_step(w).1 == Ok::<(PurchaseType, Purchase), PurchaseError>(
                        (PurchaseType::Miner, Purchase { bought: 1, cost: cost as u128 }),
                    )
                }
                &&& menu_for(w, m)[i] matches Offer::Boost { cost, max_cost } ==> {
                    &&& m.cps >= BOOST_MIN_CPS
                    &&& boost_step(m, w).2 == Ok::<(PurchaseType, Purchase), PurchaseError>(
                        (PurchaseType::Boost, Purchase { bought: BOOST_BUNDLE, cost: cost as u128 }),
                    ) || boost_step(m, w).2 == Err::<(PurchaseType, Purchase), PurchaseError>(PurchaseError::BoostLimit)
                        || boost_step(m, w).2 == Err::<(PurchaseType, Purchase), PurchaseError>(
                        PurchaseError::BoostFunds(cost),
                    )
                }
                &&& menu_for(w, m)[i] matches Offer::Time { cost, max_cost } ==> {
                    &&& cost == TIME_COST
                    &&& time_step(m, w).2 == Ok::<(PurchaseType, Purchase), PurchaseError>(
                        (PurchaseType::Chrono, Purchase { bought: 1, cost: TIME_COST as u128 }),
                    )
                    &&& max_cost == time_all(m, w).2.cost
                }
            },
{
    lemma_miner_price_bounded(w.max_miners);
    if m.cps >= 1 {
        crate::commands::lemma_top_bit(m.cps as nat);
    }
    crate::commands::lemma_max_time_price(m, w);
}

/// Whether two offers are of the same kind.
pub open spec fn same_kind(a: Offer, b: Offer) -> bool {
    match (a, b) {
        (Offer::Header, Offer::Header) => true,
        (Offer::Boost { .. }, Offer::Boost { .. }) => true,
        (Offer::Miner { .. }, Offer::Miner { .. }) => true,
        (Offer::Time { .. }, Offer::Time { .. }) => true,
        _ => false,
    }
}

/// The purchases of a connection that are announced as events: one per
/// kind, boost then licences then time travel, leaving out a kind whose sum
/// cost nothing.
pub open spec fn notices(u: UpgradeList) -> Seq<(PurchaseType, Purchase)> {
    let b = if u.boost.cost != 0 { seq![(PurchaseType::Boost, u.boost)] } else { seq![] };
    let m = if u.miner.cost != 0 { seq![(PurchaseType::Miner, u.miner)] } else { seq![] };
    let c = if u.chrono.cost != 0 { seq![(PurchaseType::Chrono, u.chrono)] } else { seq![] };
    b + m + c
}

/// The purchases to announce (see `notices`).
pub fn purchase_notices(upgrades: &UpgradeList) -> (r: Vec<(PurchaseType, Purchase)>)
    ensures
        r@ == notices(*upgrades),
{
    let mut r: Vec<(PurchaseType, Purchase)> = Vec::new();
    if upgrades.boost.cost != 0 {
        r.push((PurchaseType::Boost, upgrades.boost));
    }
    if upgrades.miner.cost != 0 {
        r.push((PurchaseType::Miner, upgrades.miner));
    }
    if upgrades.chrono.cost != 0 {
        r.push((PurchaseType::Chrono, upgrades.chrono));
    }
    assert(r@ =~= notices(*upgrades));
    r
}

/// Seconds between two randocoin draws and saves of the stats.
pub const AUTOSAVE: usize = 300;

/// The countdown to the next draw and save, one second on: it counts down
/// from `AUTOSAVE`; when it reaches zero the draw and save are due and it
/// starts over.
pub fn autosave_tick(counter: usize) -> (r: (usize, bool))
    requires
        counter >= 1,
    ensures
        counter == 1 ==> r == (AUTOSAVE, true),
        counter > 1 ==> r == ((counter - 1) as usize, false),
        r.0 >= 1,
{
    let c = counter - 1;
    if c == 0 {
        (AUTOSAVE, true)
    } else {
        (c, false)
    }
}

/// Adds an event at the head of the list, newest first.
pub fn record_event<T>(events: &mut Vec<T>, event: T)
    ensures
        final(events)@ == seq![event] + old(events)@,
{
    events.insert(0, event);
    assert(events@ =~= seq![event] + old(events)@);
}

/// Keeps the newest `ABS_MAX_EVENTS` events.
pub fn cap_events<T>(events: &mut Vec<T>)
    ensures
        old(events)@.len() > ABS_MAX_EVENTS ==> final(events)@ == old(events)@.take(ABS_MAX_EVENTS as int),
        old(events)@.len() <= ABS_MAX_EVENTS ==> final(events)@ == old(events)@,
{
    if events.len() > ABS_MAX_EVENTS {
        events.truncate(ABS_MAX_EVENTS);
    }
}

/// Events are kept newest first, at most `ABS_MAX_EVENTS` of them: a new
/// event stands at the head and the older ones follow in order.
pub proof fn lemma_events_newest_first<T>(events: Seq<T>, event: T)
    ensures
        ({
            let all = seq![event] + events;
            let kept = if all.len() > ABS_MAX_EVENTS { all.take(ABS_MAX_EVENTS as int) } else { all };
            &&& kept.len() <= ABS_MAX_EVENTS
            &&& kept.len() >= 1
            &&& kept[0] == event
            &&& forall|i: int| 1 <= i < kept.len() ==> kept[i] == events[i - 1]
        }),
{
}

/// Whether some message in `v` reads `msg`.
pub open spec fn holds_text(v: Seq<String>, msg: Seq<char>) -> bool {
    exists|i: int| 0 <= i < v.len() && #[trigger] v[i]@ == msg
}

/// Adds a message to a connection's updates unless one reading the same is
/// already there.
pub fn push_unique(updates: &mut Vec<String>, msg: String)
    ensures
        holds_text(old(updates)@, msg@) ==> final(updates)@ == old(updates)@,
        !holds_text(old(updates)@, msg@) ==> final(updates)@ == old(updates)@.push(msg),
{
    let n = updates.len();
    let mut i: usize = 0;
    while i < n
        invariant
            n == updates@.len(),
            i <= n,
            forall|j: int| 0 <= j < i ==> updates@[j]@ != msg@,
        decreases n - i,
    {
        if updates[i] == msg {
            assert(updates@[i as int]@ == msg@);
            return;
        }
        i = i + 1;
    }
    updates.push(msg);
}

/// After the updates were sent, only the first one (the login greeting) stays.
pub fn trim_updates<T>(updates: &mut Vec<T>)
    ensures
        final(updates)@ == old(updates)@.take(if old(updates)@.len() > 1 { 1 } else { old(updates)@.len() as int }),
{
    while updates.len() > 1
        invariant
            updates@.len() >= 1 ==> updates@ == old(updates)@.take(updates@.len() as int),
            updates@.len() <= old(updates)@.len(),
            updates@.len() == 0 ==> old(updates)@.len() == 0,
            updates@.len() > 1 || updates@ == old(updates)@.take(if old(updates)@.len() > 1 { 1 } else { old(updates)@.len() as int }),
        decreases updates@.len(),
    {
        updates.pop();
        assert(updates@ =~= old(updates)@.take(updates@.len() as int));
    }
}


/// The items whose positions are not in `failed`, in order.
pub open spec fn survivors<T>(s: Seq<T>, failed: Seq<usize>) -> Seq<T>
    decreases s.len(),
{
    if s.len() == 0 {
        s
    } else {
        let r = survivors(s.drop_last(), failed);
        if failed.contains((s.len() - 1) as usize) { r } else { r.push(s.last()) }
    }
}

/// Whether `x` occurs in `s`.
pub fn contains_index(s: &Vec<usize>, x: usize) -> (r: bool)
    ensures
        r == s@.contains(x),
{
    let n = s.len();
    let mut i: usize = 0;
    while i < n
        invariant
            n == s@.len(),
            i <= n,
            forall|j: int| 0 <= j < i ==> s@[j] != x,
        decreases n - i,
    {
        if s[i] == x {
            assert(s@[i as int] == x);
            return true;
        }
        i = i + 1;
    }
    false
}

/// Drops the connections at the positions in `failed` (those whose updates
/// could not be sent), keeping the others in order.
pub fn remove_failed<T>(items: &mut Vec<T>, failed: &Vec<usize>)
    ensures
        final(items)@ == survivors(old(items)@, failed@),
{
    let ghost s = items@;
    let n = items.len();
    let mut kept: Vec<T> = Vec::new();
    let mut i: usize = 0;
    while i < n
        invariant
            n == s.len(),
            i <= n,
            items@ == s.subrange(i as int, n as int),
            kept@ == survivors(s.take(i as int), failed@),
        decreases n - i,
    {
        assert(s.take(i + 1).drop_last() =~= s.take(i as int));
        let x = items.remove(0);
        if !contains_index(failed, i) {
            kept.push(x);
        }
        i = i + 1;
        assert(items@ =~= s.subrange(i as int, n as int));
    }
    assert(s.take(n as int) =~= s);
    *items = kept;
}

} // verus!
