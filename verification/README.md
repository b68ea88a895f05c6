# cube

The state managers of Cube's inscriptive layer, as a verified library:

- `coin_manager`: account and contract balances and shadow space allocations, with proportional
  up-all/down-all changes deferred until applied;
- `coin_holder`: the account and contract coin holders and their combination;
- `flame_manager`: flame tiers, flames, flame sets, account flame configurations, their byte
  encodings, the selection of flames that fund an account and the projection of funded flames;
- `graveyard`: buried accounts and the redemption of their coins;
- `params_manager`: protocol params;
- `archival`: ordering of archived batch heights.

Every manager keeps a permanent state with ephemeral changes on top, backed up before each
execution and restored on rollback. Applying the changes makes them permanent and returns the
writes for the store, which the loaders read back (`load` modules, `store` modules and `laws`
modules state and prove how the two agree).

`src/` is the library, verified with Verus. `app/` opens the sled databases, executes the writes,
guards the managers behind async mutexes and renders JSON. `tests/` exercises the library.
