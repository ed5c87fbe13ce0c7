# Kvittis

An expense-splitting service for groups and friends: users record shared
expenses, see who owes whom, and settle a group's debts with few transfers.

## Layout

- `src/` — the verified library.
  - `types.rs`, `api.rs`: users, groups, expenses and the request/response values.
  - `split.rs`: the deterministic integer split of an amount among participants
    (the shares always add up to the amount).
  - `balance.rs`: per-user balances outside groups, group net positions, the
    greedy settlement, and checks that a computation stays within `i64`.
  - `settlement.rs`: laws of the settlement (it settles every net position, and
    does not depend on the order of expenses or participants).
  - `joined.rs`: expenses rebuilt from the rows of a query that joins each
    expense with its participants.
  - `ordered.rs`, `store.rs`: the store (users, groups, expenses keyed by id,
    listed in ascending id order).
  - `search.rs`: substring search on names.
  - `state.rs`: what each operation does to the store, registration and login.
  - `handlers.rs`: the reply (status and body) to each request.
  - `config.rs`: server settings.
- `app/` — the HTTP server: JSON, the store's file, command-line arguments.
- `tests/` — tests of the library.
