# vesting_base

A vesting contract core, verified with Verus.

Accounts are granted tokens on schedules (an amount at a start time, then
linearly up to an end amount at an end time). A deposit in the vesting token
registers accounts; each account claims what has vested, or forces a claim
that pays half of what has not vested yet. The owner sets the token once,
hands over ownership through a proposal, and, with the optional extensions,
manages a list of managers who may register accounts, removes accounts and
claws back what they hold unclaimed, and keeps the past of unclaimed amounts
by block height.

Layout:

- `src/types.rs`: the messages, state records and errors.
- `src/schedule.rs`: what a schedule has vested at a time, validation and
  totals; the laws of the schedule arithmetic.
- `src/history.rs`: values kept by block height (read at a height gives the
  last value written below it).
- `src/accounts.rs`: the accounts ordered by address, as a map, and pages of
  them.
- `src/contract.rs`: the contract state, its invariant and every handler and
  query with its contract.
- `src/laws.rs`: laws that span handlers and time.
- `src/arith.rs`: the ratio and decimal-text calls into `cosmwasm_std` and std,
  and the verified order on texts.
- `app/`: entry points on a CosmWasm host (storage, JSON, address checks). A
  state loaded from storage is accepted only when `is_well_formed` holds.
