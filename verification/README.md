# krabka_barrier

Barrier cuts and barrier snapshots of a streams client, verified with Verus.

A broker injects an epoch-stamped marker into every partition of a barrier group
and publishes the resulting cut, one marker offset per partition, to the internal
topic `__barrier_state`. A client decodes those cuts, aligns on the complete ones,
and snapshots its state stores at each.

## Layout

| Module | What it holds |
| --- | --- |
| `barrier::record` | The record layouts of the topic, and their laws |
| `barrier::cut` | The decoded cut, and the decoder |
| `barrier::held` | The complete cuts, by group and epoch |
| `barrier::reader` | What to fetch next, and what to make of it |
| `barrier::history` | What holds over any number of reads |
| `barrier::align` | The alignment, the barrier, and the listener |
| `store::container` | The snapshot layouts, and their laws |
| `store::snapshot` | Encoding and decoding of snapshots |
| `store::restore` | Replacing a store's contents with a snapshot |
| `store::key` | The file name of a snapshot |
| `store::stores` | The snapshot stores, and the steps of an atomic save |
| `collections` | Maps and sets that keep their keys in order |
| `layout`, `wire`, `text` | Runs of values, big-endian integers, decimal text |
| `buffer` | What is taken on trust of the `bytes` crate |

Each executable function has a contract over plain sequences, maps, and numbers.
The proof functions whose names start with `law_` state what holds of the library
as a whole.

`app/` is ordinary asynchronous Rust around the library. It fetches records,
touches files, and drives stores, and leaves every decision to the library.
