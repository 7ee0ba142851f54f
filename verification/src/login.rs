use vstd::prelude::*;
use crate::wallet::{Wallet, START_MAX_MINERS};

verus! {

/// The size of the buffer a login name is read into; a name fills at most
/// all but its last byte.
pub const LOGIN_BUF: usize = 1024;

/// The one wallet that may not log in.
pub const BANNED_WALLET: u64 = 0xe492ba332d614d88;

/// Carriage return.
pub const CR: u8 = 0x0d;
/// Line feed.
pub const LF: u8 = 0x0a;

/// The XXH3 64-bit hash (seed 0, default secret) of a byte string.
pub uninterp spec fn xxh3_digest(data: Seq<u8>) -> u64;

/// Hashes the bytes with the streaming XXH3 hasher of `xxhash_rust`
/// (`Xxh3::new`, `update`, `digest`): claimed to equal `xxh3_digest` of
/// the bytes, a function of the bytes alone.
#[verifier::external_body]
fn xxh3_hash(data: &[u8]) -> (h: u64)
    ensures
        h == xxh3_digest(data@),
{
    let mut hasher = xxhash_rust::xxh3::Xxh3::new();
    hasher.update(data);
    hasher.digest()
}

/// Whether a `\r\n` pair starts at `k`, within the first `len` bytes.
pub open spec fn crlf_at(s: Seq<u8>, len: int, k: int) -> bool {
    0 <= k < len && k + 1 < s.len() && s[k] == CR && s[k + 1] == LF
}

/// The buffer with each `\r\n` pair that starts within the first `len`
/// bytes turned into `\n` and a zero byte.
pub open spec fn normalized(s: Seq<u8>, len: int) -> Seq<u8> {
    Seq::new(s.len(), |k: int| if crlf_at(s, len, k) { LF } else if crlf_at(s, len, k - 1) { 0u8 } else { s[k] })
}

/// The login buffer: the bytes read, then zero bytes up to `LOGIN_BUF`.
pub open spec fn padded(s: Seq<u8>) -> Seq<u8> {
    Seq::new(LOGIN_BUF as nat, |k: int| if k < s.len() { s[k] } else { 0u8 })
}

/// The wallet id of a login: the hash of the whole login buffer, after the
/// line ending of the name was normalized.
pub open spec fn login_id(name: Seq<u8>) -> u64 {
    xxh3_digest(normalized(padded(name), name.len() as int))
}

/// Turns each `\r\n` pair that starts within the first `len` bytes of the
/// buffer into `\n` and a zero byte.
pub fn normalize_login(buf: &mut Vec<u8>, len: usize)
    requires
        len < old(buf).len(),
    ensures
        final(buf)@ == normalized(old(buf)@, len as int),
{
    let ghost s = buf@;
    let mut i: usize = 0;
    while i < len
        invariant
            len < s.len(),
            buf@.len() == s.len(),
            i <= len,
            forall|j: int| 0 <= j < i ==> buf@[j] == normalized(s, len as int)[j],
            buf@[i as int] == (if crlf_at(s, len as int, i - 1) { 0u8 } else { s[i as int] }),
            forall|j: int| i < j < s.len() ==> buf@[j] == s[j],
        decreases len - i,
    {
        if buf[i] == CR && buf[i + 1] == LF {
            buf.set(i, LF);
            buf.set(i + 1, 0);
        }
        i = i + 1;
    }
    assert forall|j: int| 0 <= j < s.len() implies buf@[j] == normalized(s, len as int)[j] by {
        if j >= len {
            assert(!crlf_at(s, len as int, j));
        }
    }
    assert(buf@ =~= normalized(s, len as int));
}

/// The wallet id of a player who logged in with the bytes `name` (at most
/// `LOGIN_BUF - 1` of them): the XXH3 hash of the login buffer, with the
/// name's `\r\n` pairs turned into `\n` and a zero byte.
pub fn wallet_id_from_login(name: &[u8]) -> (id: u64)
    requires
        name@.len() < LOGIN_BUF,
    ensures
        id == login_id(name@),
{
    let mut buf: Vec<u8> = vec![0u8; LOGIN_BUF];
    let n = name.len();
    let mut i: usize = 0;
    while i < n
        invariant
            n == name@.len(),
            n < LOGIN_BUF,
            i <= n,
            buf@.len() == LOGIN_BUF,
            forall|j: int| 0 <= j < i ==> buf@[j] == name@[j],
            forall|j: int| i <= j < LOGIN_BUF ==> buf@[j] == 0u8,
        decreases n - i,
    {
        buf.set(i, name[i]);
        i = i + 1;
    }
    assert(buf@ =~= padded(name@));
    normalize_login(&mut buf, n);
    xxh3_hash(buf.as_slice())
}

/// Whether the wallet is refused at login.
pub fn is_banned(wallet_id: u64) -> (r: bool)
    ensures
        r == (wallet_id == BANNED_WALLET),
{
    wallet_id == BANNED_WALLET
}

/// The last wallet with the given id, if any.
pub open spec fn find_last(ws: Seq<Wallet>, id: u64) -> Option<Wallet>
    decreases ws.len(),
{
    if ws.len() == 0 {
        None
    } else if ws.last().id == id {
        Some(ws.last())
    } else {
        find_last(ws.drop_last(), id)
    }
}

/// Finds the player's wallet, or opens a new one for a new player; returns
/// the number of miners the wallet may run.
pub fn register_wallet(wallets: &mut Vec<Wallet>, wallet_id: u64) -> (max_miners: u64)
    ensures
        find_last(old(wallets)@, wallet_id) matches Some(w) ==> {
            &&& final(wallets)@ == old(wallets)@
            &&& max_miners == w.max_miners
        },
        find_last(old(wallets)@, wallet_id) is None ==> {
            &&& final(wallets)@ == old(wallets)@.push(Wallet::new_spec(wallet_id))
            &&& max_miners == START_MAX_MINERS
        },
{
    let ghost ws = wallets@;
    let mut found = false;
    let mut max_miners: u64 = START_MAX_MINERS;
    let n = wallets.len();
    let mut i: usize = 0;
    while i < n
        invariant
            n == ws.len(),
            wallets@ == ws,
            i <= n,
            found == find_last(ws.take(i as int), wallet_id) is Some,
            find_last(ws.take(i as int), wallet_id) matches Some(w) ==> max_miners == w.max_miners,
            !found ==> max_miners == START_MAX_MINERS,
        decreases n - i,
    {
        assert(ws.take(i + 1).drop_last() =~= ws.take(i as int));
        if wallets[i].id == wallet_id {
            found = true;
            max_miners = wallets[i].max_miners;
        }
        i = i + 1;
    }
    assert(ws.take(n as int) =~= ws);
    if !found {
        wallets.push(Wallet::new(wallet_id));
    }
    max_miners
}

/// The number of times `x` occurs in `s`.
pub open spec fn occurrences(s: Seq<u64>, x: u64) -> nat
    decreases s.len(),
{
    if s.len() == 0 {
        0
    } else {
        occurrences(s.drop_last(), x) + if s.last() == x { 1nat } else { 0nat }
    }
}

/// Whether a wallet with `max_miners` licences may connect one more miner,
/// given the wallet ids of the miners already connected.
pub fn login_allowed(connected: &Vec<u64>, wallet_id: u64, max_miners: u64) -> (r: bool)
    ensures
        r == (occurrences(connected@, wallet_id) < max_miners),
{
    let mut num: u64 = 0;
    let n = connected.len();
    let mut i: usize = 0;
    while i < n
        invariant
            n == connected@.len(),
            i <= n,
            num == occurrences(connected@.take(i as int), wallet_id),
            num <= i,
        decreases n - i,
    {
        assert(connected@.take(i + 1).drop_last() =~= connected@.take(i as int));
        if connected[i] == wallet_id {
            num = num + 1;
        }
        i = i + 1;
    }
    assert(connected@.take(n as int) =~= connected@);
    num < max_miners
}

/// The wallets and the licence count after a login of `id`: the wallet is
/// found (the last one with that id), or a new one is opened.
pub open spec fn registered(ws: Seq<Wallet>, id: u64) -> (Seq<Wallet>, u64) {
    match find_last(ws, id) {
        Some(w) => (ws, w.max_miners),
        None => (ws.push(Wallet::new_spec(id)), START_MAX_MINERS),
    }
}

/// Why a login was refused.
#[derive(Clone, Copy, Debug, PartialEq, Eq, Structural)]
pub enum LoginRefusal {
    /// the wallet is banned
    Banned(u64),
    /// the wallet already runs as many miners as it holds licences
    TooManyMiners { wallet_id: u64, max_miners: u64 },
}

/// The decisions of a login with the name `name`, in the order they are
/// taken: a banned wallet is refused and nothing changes; otherwise the
/// wallet is found or opened, and the login is refused when the wallet
/// already runs as many miners (their wallet ids are `connected`) as it holds
/// licences. Returns the wallet id the new miner earns for.
pub fn admit_login(name: &[u8], wallets: &mut Vec<Wallet>, connected: &Vec<u64>) -> (r: Result<u64, LoginRefusal>)
    requires
        name@.len() < LOGIN_BUF,
    ensures
        ({
            let id = login_id(name@);
            let (ws, max) = registered(old(wallets)@, id);
            &&& id == BANNED_WALLET ==> r == Err::<u64, LoginRefusal>(LoginRefusal::Banned(id))
                && final(wallets)@ == old(wallets)@
            &&& id != BANNED_WALLET ==> final(wallets)@ == ws
            &&& id != BANNED_WALLET && occurrences(connected@, id) >= max
                ==> r == Err::<u64, LoginRefusal>(LoginRefusal::TooManyMiners { wallet_id: id, max_miners: max })
            &&& id != BANNED_WALLET && occurrences(connected@, id) < max ==> r == Ok::<u64, LoginRefusal>(id)
        }),
{
    let wallet_id = wallet_id_from_login(name);
    if is_banned(wallet_id) {
        return Err(LoginRefusal::Banned(wallet_id));
    }
    let max_miners = register_wallet(wallets, wallet_id);
    if !login_allowed(connected, wallet_id, max_miners) {
        return Err(LoginRefusal::TooManyMiners { wallet_id, max_miners });
    }
    Ok(wallet_id)
}

/// The miner id that the draw `x` gives: its low 32 bits, unless a
/// connected miner already has that id.
pub open spec fn drawn_id(x: u64, taken: Seq<u32>) -> Option<u32> {
    let c = (x % 0x1_0000_0000) as u32;
    if taken.contains(c) { None } else { Some(c) }
}

/// The miner id that the draw `x` gives (see `drawn_id`).
pub fn miner_id_from_draw(x: u64, taken: &Vec<u32>) -> (r: Option<u32>)
    ensures
        r == drawn_id(x, taken@),
{
    let candidate = (x % 0x1_0000_0000) as u32;
    let n = taken.len();
    let mut i: usize = 0;
    while i < n
        invariant
            n == taken@.len(),
            i <= n,
            candidate == (x % 0x1_0000_0000) as u32,
            forall|j: int| 0 <= j < i ==> taken@[j] != candidate,
        decreases n - i,
    {
        if taken[i] == candidate {
            assert(taken@.contains(candidate));
            return None;
        }
        i = i + 1;
    }
    assert(!taken@.contains(candidate));
    Some(candidate)
}

/// Draws a random miner id; returns it if no connected miner has it, and
/// nothing otherwise (the caller draws again).
pub fn draw_miner_id(taken: &Vec<u32>) -> (r: Option<u32>)
    ensures
        exists|x: u64| r == #[trigger] drawn_id(x, taken@),
{
    let x = crate::random::random_u64();
    let r = miner_id_from_draw(x, taken);
    assert(r == drawn_id(x, taken@));
    r
}

/// A name sent with a `\r\n` line ending (telnet) and the same name sent
/// with a `\n` line ending (netcat) log into the same wallet. It fails for a
/// name that itself ends in `\r`: with `\n` after it, that `\r` starts a
/// pair of its own.
pub proof fn lemma_line_endings(name: Seq<u8>)
    requires
        name.len() + 2 < LOGIN_BUF,
        name.len() == 0 || name.last() != CR,
    ensures
        login_id(name + seq![CR, LF]) == login_id(name + seq![LF]),
{
    let n = name.len() as int;
    let a = name + seq![CR, LF];
    let b = name + seq![LF];
    let pa = padded(a);
    let pb = padded(b);
    assert forall|k: int| 0 <= k < LOGIN_BUF implies #[trigger] normalized(pa, n + 2)[k] == normalized(pb, n + 1)[k] by {
        if k < n {
            assert(pa[k] == pb[k]);
            if k + 1 < n {
                assert(pa[k + 1] == pb[k + 1]);
            } else {
                assert(pa[k + 1] == CR);
                assert(pb[k + 1] == LF);
                assert(name.last() == name[k]);
            }
            if k >= 1 {
                assert(pa[k - 1] == pb[k - 1]);
            }
        } else if k == n {
            assert(pa[k] == CR && pa[k + 1] == LF);
            assert(pb[k] == LF);
            if n >= 1 {
                assert(pb[k - 1] == name.last());
            }
        } else if k == n + 1 {
            assert(pa[k - 1] == CR && pa[k] == LF);
            assert(pb[k - 1] == LF);
            assert(pb[k] == 0);
        } else {
            assert(pa[k] == 0 && pb[k] == 0);
            if k == n + 2 {
                assert(pa[k - 1] == LF);
            }
        }
    }
    assert(normalized(pa, n + 2) =~= normalized(pb, n + 1));
}


/// Normalizing changes only the bytes of the `\r\n` pairs that start
/// within the first `len` bytes: the `\r` of such a pair becomes `\n`, its
/// `\n` becomes a zero byte, and every other byte is kept.
pub proof fn lemma_normalize_keeps_bytes(s: Seq<u8>, len: int)
    ensures
        normalized(s, len).len() == s.len(),
        forall|k: int|
            0 <= k < s.len() ==> {
                let pair_here = k < len && k + 1 < s.len() && s[k] == CR && s[k + 1] == LF;
                let pair_before = 1 <= k && k - 1 < len && s[k - 1] == CR && s[k] == LF;
                &&& pair_here ==> #[trigger] normalized(s, len)[k] == LF
                &&& pair_before ==> normalized(s, len)[k] == 0
                &&& !pair_here && !pair_before ==> normalized(s, len)[k] == s[k]
            },
{
}

/// The buffer hashed for a name with no `\r` in it is the name followed by
/// zero bytes.
pub proof fn lemma_login_buffer(name: Seq<u8>)
    requires
        name.len() < LOGIN_BUF,
        forall|k: int| 0 <= k < name.len() ==> name[k] != CR,
    ensures
        normalized(padded(name), name.len() as int).len() == LOGIN_BUF,
        forall|k: int| 0 <= k < name.len() ==> #[trigger] normalized(padded(name), name.len() as int)[k] == name[k],
        forall|k: int| name.len() <= k < LOGIN_BUF ==> #[trigger] normalized(padded(name), name.len() as int)[k] == 0,
{
    lemma_normalize_keeps_bytes(padded(name), name.len() as int);
    assert forall|k: int| 0 <= k < LOGIN_BUF implies !crlf_at(padded(name), name.len() as int, k) by {
        if 0 <= k < name.len() {
            assert(padded(name)[k] == name[k]);
        }
    }
}

/// Two different names with no `\r` and no zero byte in them are hashed
/// from different buffers, so that each player's wallet id is the hash of
/// that player's own name.
pub proof fn lemma_distinct_names(a: Seq<u8>, b: Seq<u8>)
    requires
        a.len() < LOGIN_BUF,
        b.len() < LOGIN_BUF,
        forall|k: int| 0 <= k < a.len() ==> a[k] != CR && a[k] != 0,
        forall|k: int| 0 <= k < b.len() ==> b[k] != CR && b[k] != 0,
        a != b,
    ensures
        normalized(padded(a), a.len() as int) != normalized(padded(b), b.len() as int),
{
    lemma_login_buffer(a);
    lemma_login_buffer(b);
    let na = normalized(padded(a), a.len() as int);
    let nb = normalized(padded(b), b.len() as int);
    if a.len() == b.len() {
        if forall|k: int| 0 <= k < a.len() ==> a[k] == b[k] {
            assert(a =~= b);
        }
        let k = choose|k: int| 0 <= k < a.len() && a[k] != b[k];
        assert(na[k] != nb[k]);
    } else if a.len() < b.len() {
        let k = a.len() as int;
        assert(na[k] == 0);
        assert(nb[k] == b[k]);
    } else {
        let k = b.len() as int;
        assert(nb[k] == 0);
        assert(na[k] == a[k]);
    }
}

} // verus!
