# stellar_rec

Renewable energy certificates (1 token = 1 MWh) on Stellar: minted from
attested meter readings, traded on an order book, hedged with
contracts-for-difference and retired against energy claims.

## Layout

- `src/` — the verified library (Verus). One module per registry:
  - `rec_token` — certificate tokens: mint, transfer, burn, balances,
    paginated listings.
  - `oracle` — bonded attestors, meter bindings, reading validation,
    rewards, disputes and slashing. Reading ids are SHA-256 digests
    computed by the ledger host (`crypto`).
  - `order_book`, `marketplace`, `market_types` — price-time priority
    book, matching with fees, automatic matching, and CfD positions with
    collateral, settlement and liquidation.
  - `retirement` — retirement receipts, audits and claim proofs.
  - `ids`, `bytes` — addresses, 32-byte ids and byte encodings.

  Each registry is a value with a view (its abstract state) and a
  consistency predicate; every operation states its result and the new
  state exactly, and the laws relating operations are proof functions
  named `law_*`. Each registry also converts to and from plain data
  (`data`, `restore`), so its state can be stored between calls.

  The library holds its collections (tokens, orders, positions,
  attestors, verifiers, receipts) in std `Vec`s, not in Soroban's `Vec`
  and `Map`. Those are handles to objects that live in the ledger host
  and are bound to an `Env`: every read or write of them is a host call,
  and in the contracts they serve as the storage and return format. The
  library keeps plain values that Verus can reason about, states as
  invariants what the host maps gave (unique keys, dense ids), and the
  contracts in `app/` convert between the two forms at the storage
  boundary.

- `app/` — the Soroban contracts. They load the library's state from
  contract storage, check authorization, make the cross-contract calls
  (token moves, payments, price reads, minting), verify ed25519
  signatures, emit events and store the new state.

- `tests/` — tests of the library on concrete values.
