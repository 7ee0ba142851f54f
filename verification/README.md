# idlecoin

The rules of idlecoin, an idle game played over a plain TCP connection:
wallets, miners, purchases typed as command letters, random events and the
scoreboard, written in Verus with their contracts proved.

- `src/wallet.rs`: wallets, the supercoin:idlecoin fortune and its payments.
- `src/miner.rs`: miners, one second of mining, crediting wallets, random rolls.
- `src/commands.rs`: prices, purchases and the running of command bytes.
- `src/login.rs`: the wallet id of a login name, wallet registration, miner ids.
- `src/server.rs`: per-second housekeeping (chronocoins, randocoin draws,
  ranking, purchase menus, event and update lists).
- `app/main.rs`: the server around the library: sockets, the clock, the
  stats file, signal handling and all text shown to players.
