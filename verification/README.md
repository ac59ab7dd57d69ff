# StreamX

Stream operators whose buffering, back-pressure and lifetime behaviour is
explicit, written in Verus: what each operator decides is stated in its contract
and proved. The sharing operators are proved relative to the broadcast channel
that they send through: their contracts say which calls on it are made and what is
done with the replies, not what the channel itself delivers.

Some operators are pull-based and preserve every event; others actively consume
their source and intentionally conflate or drop intermediate values.

| Need | Operator | Delivery |
| --- | --- | --- |
| Merge event streams | `merge_all` (app) | Pull-based and lossless |
| Merge streams that are sorted by a key | `merge_ordered`, `try_merge_ordered` | Pull-based and lossless; one head per unfinished input |
| Pace separately consumed sorted streams | `OrderGate` | Pull-based and lossless; one shared frontier |
| Suppress consecutive duplicates | `distinct_until_changed`, `distinct_until_changed_by` | Pull-based; every change is emitted |
| Observe only the newest state | `latest` | Hot; one unconsumed value |
| Combine the state of several streams | `CombineLatest2Stream` to `CombineLatest8Stream`, `combine_latest_all` | Hot; one unconsumed snapshot |
| Emit after a quiet period | `debounce` | Hot; bounded, drop-oldest queue |
| Emit the leading value of each window | `throttle` | Hot; bounded, drop-oldest queue |
| Sample state when an event arrives | `with_latest_from` | Pull-based primary, hot secondary |
| Multicast | `share`, `share_overflow`, `share_latest` | Live; lossless or drop-oldest |
| Multicast with history | `share_replay`, `share_replay_overflow`, `share_replay_latest` | Replay history plus live |

## Layout

- `src/` is the verified library. Each operator is a state machine: it says which
  source or deadline to poll next, is told what the poll gave, and hands out what
  to emit and whom to wake. Besides their contracts, the modules state laws:
  public proof functions named `law_…`, most of them about runs of several calls.
  Those on the merges are in `merge_laws.rs` and `merge_runs.rs`, those on the order
  gate in `gate_laws.rs`, `gate_order.rs`, `gate_group.rs` and `gate_runs.rs`, the
  others beside their operator.
- `src/broadcast.rs` holds everything that is believed without proof: the
  calls into the `async-broadcast` crate, and what is assumed of them.
- `app/` turns the state machines into `futures::Stream`s driven by Tokio tasks.
- `tests/` runs the operators, by hand and as streams.
