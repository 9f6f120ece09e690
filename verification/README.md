# dividend

A verified ledger for dividend distributions to the holders of an asset token.

An admin creates a distribution: a pool of a payment token, to be shared among
the holders listed in a snapshot in proportion to their balances. Each holder
may claim its share once; the share is `pool * balance / snapshot supply`,
rounded down.

- `src/` is the library, verified with Verus:
  - `address.rs`: addresses as the bytes of their textual form;
  - `error.rs`: the refusals and their contract error numbers;
  - `model.rs`: the mathematical model (snapshots, shares, sums) and its lemmas;
  - `snapshot.rs`: checking an eligibility list and looking holders up;
  - `ledger.rs`: the ledger, each operation specified by a spec function on its view;
  - `laws.rs`: what holds across operations (payouts stay within the pool,
    a claim happens once, listings are scoped to their asset, rounding dust is bounded).
- `app/` is the Soroban contract around it: authorization, storage and the
  payment-token transfers.
- `tests/` runs the library on the contract's scenarios and properties.
