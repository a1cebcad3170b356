# lob

A single-instrument, in-memory limit order book and matching engine, with
its behaviour stated in Verus contracts and proved.

Orders match by price, then by arrival time within a price; each trade runs
at the resting order's price. Limit, market and immediate-or-cancel orders,
cancels and amends all produce an explicit event stream. A plain-text
journal and a canonical binary snapshot let any run be replayed or resumed
exactly.

## Layout

| Module | What it holds |
|---|---|
| `types`, `command` | prices, quantities, ids, sides, order types; commands and events |
| `level`, `book`, `queue` | the arena-backed FIFO levels, the book over them, and the book's model as two priority-ordered queues |
| `engine` | `MatchingEngine`: submit, cancel, amend, replay, snapshot, restore, against `apply_spec` |
| `snapshot` | validation, the canonical encoding and its decoder, FNV-1a digests |
| `journal`, `text` | the journal's text form and its parser |
| `invariants` | the `Auditor`, which rebuilds per-order accounting from events and reconciles it with the book |
| `audit` | the proof that the engine passes the auditor's checks after every command |
| `json` | the JSON documents of the browser explainer |
| `cli` | the arguments and the report of `lob replay` |
| `workload` | the fixed-seed benchmark workloads |
| `fuzz` | the fuzz harnesses, each proved to find nothing wrong |

`app/` is the program around the library: the `lob replay` command line,
the WebAssembly exports, the byte-level fuzz targets (which decode their
input with `arbitrary`) and the latency harness, which times and averages
with floating point.

## Laws proved

- One command keeps a valid state valid; replay composes over
  concatenation; snapshot and restore compose with replay.
- Snapshot decoding inverts encoding on valid states, and only canonical
  bytes decode.
- Printing commands as a journal and parsing it gives the commands back.
- A rejected command emits one event and changes nothing, and needs no
  room in the id or sequence space.
- Ids are issued in turn: the `n`-th accepted order has id `n`; a cancel
  removes its order for good; the book is never crossed.
- Matching conserves quantity and takes makers in priority order at their
  own prices; the levels of a side partition its queue in strictly
  worsening price order.
- `depth` reports a prefix of the full depth, best price first, each level
  with the count and total of the orders listed at its price; the book's
  length is the orders counted over both sides.
- The auditor's full reconcile passes exactly when every order it has seen
  balances and rests where recorded, and otherwise reports the smallest
  failing id; an auditor restored from a snapshot reconciles with it.
- Every command's events pass the auditor's checks (per-order conservation,
  trade symmetry, rejection neutrality, index consistency, execution prices
  and priority), and the book's levels, index and ordering stay consistent.
