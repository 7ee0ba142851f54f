use vstd::prelude::*;

verus! {

/// The number of idlecoins that one supercoin stands for. When a wallet's
/// idlecoins overflow, they wrap modulo this value and one supercoin is added.
pub const COIN_WRAP: u64 = 0xffff_ffff_ffff_ffff;

/// The number of miners every wallet may run before buying licences.
pub const START_MAX_MINERS: u64 = 5;

/// Randocoins awarded to the winner of a draw.
pub const RANDOCOIN_PRIZE: u64 = 16;

/// A player's wallet, identified by the hash of the name the player logs in with.
#[derive(Clone, Copy, Debug, PartialEq, Eq, Structural, PartialOrd, Ord)]
pub struct Wallet {
    /// wallet address ID
    pub id: u64,
    /// supercoins: each one stands for `COIN_WRAP` idlecoins
    pub supercoin: u64,
    /// idlecoins
    pub idlecoin: u64,
    /// chronocoins, earned one per second while a miner is connected
    pub chronocoin: u64,
    /// randocoins, won in periodic draws
    pub randocoin: u64,
    /// the number of miners that may be connected at once
    pub max_miners: u64,
}

/// The error of a purchase that the wallet cannot pay for.
#[derive(Clone, Copy, Debug, PartialEq, Eq, Structural)]
pub struct InsufficientFunds;

pub open spec fn sat_add(a: int, b: int) -> u64 {
    if a + b > u64::MAX { u64::MAX } else { (a + b) as u64 }
}

pub open spec fn sat_sub(a: int, b: int) -> u64 {
    if a - b < 0 { 0 } else { (a - b) as u64 }
}

impl Wallet {
    /// The wallet's whole idlecoin fortune: supercoins count `COIN_WRAP` each.
    pub open spec fn total(self) -> int {
        self.supercoin * (COIN_WRAP as int) + self.idlecoin
    }

    /// Whether the wallet can pay `amount` idlecoins, borrowing from its
    /// supercoins if need be.
    pub open spec fn can_afford(self, amount: u64) -> bool {
        self.idlecoin >= amount || self.supercoin > 0
    }

    /// A fresh wallet: no coins of any kind and the starting miner licences.
    pub open spec fn new_spec(id: u64) -> Wallet {
        Wallet { id, supercoin: 0, idlecoin: 0, chronocoin: 0, randocoin: 0, max_miners: START_MAX_MINERS }
    }

    /// A fresh wallet: no coins of any kind and the starting miner licences.
    pub fn new(id: u64) -> (w: Wallet)
        ensures
            w == Wallet::new_spec(id),
    {
        Wallet { id, supercoin: 0, idlecoin: 0, chronocoin: 0, randocoin: 0, max_miners: START_MAX_MINERS }
    }

    /// Pays `less` idlecoins if the wallet can afford them, borrowing one
    /// supercoin when its idlecoins alone do not suffice; otherwise the wallet
    /// is left as it was and the purchase fails.
    pub fn sub_idlecoins(&mut self, less: u64) -> (r: Result<(), InsufficientFunds>)
        ensures
            r is Err <==> !old(self).can_afford(less),
            r is Err <==> old(self).total() < less,
            r is Err ==> *final(self) == *old(self),
            r is Ok ==> *final(self) == spent(*old(self), less),
            r is Ok ==> final(self).total() == old(self).total() - less,
    {
        if self.idlecoin < less && self.supercoin == 0 {
            return Err(InsufficientFunds);
        }
        crate::miner::sub_idlecoins(self, less);
        Ok(())
    }

    /// Pays `less` chronocoins if the wallet holds that many; otherwise the
    /// wallet is left as it was.
    pub fn sub_chronocoins(&mut self, less: u64) -> (r: Result<(), InsufficientFunds>)
        ensures
            r is Err <==> old(self).chronocoin < less,
            r is Err ==> *final(self) == *old(self),
            r is Ok ==> *final(self) == (Wallet { chronocoin: (old(self).chronocoin - less) as u64, ..*old(self) }),
    {
        if self.chronocoin < less {
            return Err(InsufficientFunds);
        }
        self.chronocoin = self.chronocoin - less;
        Ok(())
    }

    /// One more chronocoin, saturating at the top of the range.
    pub fn inc_chronocoins(&mut self)
        ensures
            *final(self) == (Wallet { chronocoin: sat_add(old(self).chronocoin as int, 1), ..*old(self) }),
    {
        self.chronocoin = self.chronocoin.saturating_add(1);
    }

    /// The randocoin prize of a draw, saturating at the top of the range.
    pub fn inc_randocoins(&mut self)
        ensures
            *final(self) == (Wallet {
                randocoin: sat_add(old(self).randocoin as int, RANDOCOIN_PRIZE as int),
                ..*old(self)
            }),
    {
        self.randocoin = self.randocoin.saturating_add(RANDOCOIN_PRIZE);
    }
}

/// The wallet after `miner::sub_idlecoins` took `less` idlecoins from it.
pub open spec fn spent(w: Wallet, less: u64) -> Wallet {
    if w.idlecoin >= less {
        Wallet { idlecoin: (w.idlecoin - less) as u64, ..w }
    } else if w.supercoin > 0 {
        Wallet {
            supercoin: (w.supercoin - 1) as u64,
            idlecoin: (COIN_WRAP - less + w.idlecoin) as u64,
            ..w
        }
    } else {
        Wallet { idlecoin: 0, ..w }
    }
}

/// The wallet after `miner::add_idlecoins` credited `new` idlecoins to it.
pub open spec fn credited(w: Wallet, new: u64) -> Wallet {
    if w.idlecoin + new <= u64::MAX {
        Wallet { idlecoin: (w.idlecoin + new) as u64, ..w }
    } else {
        Wallet {
            supercoin: sat_add(w.supercoin as int, 1),
            idlecoin: ((w.idlecoin + new) % (COIN_WRAP as int)) as u64,
            ..w
        }
    }
}

} // verus!
