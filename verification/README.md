# tip_splitter

Tip jars that route each incoming tip across one or more recipients by
basis-point shares, verified with Verus.

- `src/types.rs` — addresses, splits, jars, errors, payments and events.
- `src/splits.rs` — the validation rules for splits, jar ids and tip requests.
- `src/payout.rs` — how a tip is divided, and the laws it obeys (the full
  amount is paid, the last recipient absorbs the rounding dust).
- `src/store.rs` — the jar storage, viewed as a map from slug to jar.
- `src/contract.rs` — the contract as a state machine, with the laws that
  relate its operations.
- `app/lib.rs` — the Soroban contract: for each invocation it loads the
  stored state it touches into `TipSplitter::load`, requires the host
  authorization, runs the library's operation, and writes back the jar,
  makes the token transfers and publishes the event the library returns.
