# beater-memory

Long-term memory for agents: an append-only ledger of what was observed, a typed temporal
graph projected from it, and answers under a token budget that cite where they come from and
warn of what contradicts them.

The library in `src/` is written in Verus. Every function states in its contract what it
returns and changes, and the proofs are part of the source.

## Layout

| Path | What it holds |
| --- | --- |
| `src/chars.rs`, `src/text.rs`, `src/digits.rs`, `src/glob.rs` | texts as character sequences, terms, identifiers, overlaps, patterns |
| `src/order.rs`, `src/table.rs` | stable sorting, and tables that are searched by a condition |
| `src/error.rs`, `src/json.rs`, `src/model.rs`, `src/ledger.rs`, `src/rows.rs` | the values that everything else speaks of |
| `src/store.rs`, `src/projection.rs`, `src/upkeep.rs` | the tables: reads, writes, statistics, repair, migration |
| `src/distill.rs`, `src/revise.rs`, `src/passes.rs`, `src/engine.rs` | from events to memories: distilling, revising, projecting, rebuilding |
| `src/route.rs`, `src/graph.rs`, `src/answer.rs`, `src/reconstruct.rs`, `src/explore.rs`, `src/query.rs`, `src/inquiry.rs`, `src/knowledge.rs` | from questions to answers |
| `src/imports.rs`, `src/eval.rs`, `src/server.rs` | imports, evaluation suites, and the rules of the HTTP service |
| `src/history.rs`, `src/timeline.rs`, `src/recall.rs`, `src/stability.rs`, `src/hindsight.rs`, `src/counting.rs`, `src/replay.rs`, `src/wording.rs` | what holds of the library as a whole |
| `tests/` | examples with concrete values |
| `app/` | the program: command line, SQLite file, HTTP service, floating-point scoring |

## What is proved of the whole

- The ledger only grows; a pass marks events and changes nothing else of them (`history.rs`).
- Nothing is deleted: contradicted memory is closed and stays readable for the time at which it
  held (`history.rs`).
- Two versions of a memory never hold at one time, and their windows do not depend on the order
  in which statements arrived (`history.rs`, `timeline.rs`).
- A read stays in its scope, sees nothing from after its time, and misses nothing that holds
  (`recall.rs`).
- A read that knows from a time rests on events that the ledger had taken in by then, and sees
  no window closed by a later one (`knowledge.rs`).
- An answer about a time stands over any later events and passes (`hindsight.rs`).
- A rebuild depends on the ledger alone, where the distiller always replies the same
  (`replay.rs`).
- A pass counts each event once, as projected or as skipped, and a second one sees nothing new
  (`counting.rs`).
- Normal forms are stable and ignore case, and the terms of a text read back (`wording.rs`).
- A memory that was added is read back with the places it was observed in (`recall.rs`).
- Imports and keyed writes can be repeated without effect (`imports.rs`, `ledger.rs`).
- Evidence keeps within the token budget of a query (`model.rs`, `graph.rs`).

## Units

Scores are counted in billionths, confidences and edge weights in hundredths. Shares of terms
have 24 binary digits and are counted in units of two to the power of minus 88. Times are
milliseconds since the Unix epoch.
