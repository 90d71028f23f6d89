# kvlake

The metadata and data plane of a pool for KV-cache blocks: who holds which block in which
tier, who refers to it, what each model may use, and how blocks are written back, promoted,
moved and found again. The library is written in Verus; every function in `src/` carries a
contract over a mathematical model of its state, and Verus proves each body against it.

## Layout

| Module | What it is |
|---|---|
| `base` | ordered tables, sets and queues over byte and text keys, decimal text, listing order |
| `proto` | the messages, with their views |
| `control` | the control plane: registration and admission, quotas, references, locations, the inactive index, the view log, checkpoints, reconciliation, defragmentation, sharding and placement |
| `tier` | the tiers of one node: the L0-L3 engine, the segment arena, the promotion pipeline, write-back batches, a workload generator |
| `transfer` | batches of copies between segments, the wire format of locations, the pull service |
| `agent` | the storage agent: put-end with its two phases, location events, pins and request barriers |
| `kv_pool` | a plain in-memory block pool |

Types with a model have a view (`x@`) and, where they have an invariant, a `wf` spec
function. What relates several functions stands as public proof functions: in `control` in
the modules `laws`, `accounts`, `layout`, `mirror`, `restore` and `upkeep`, elsewhere at the
end of each module.

`app/` holds the programs around the library: servers, the clock, locks, ratios in floating
point and two measurements. It is not verified.

## What is trusted

Four calls: the xxh3 hash, the root and the extension of a positional lineage hash, and
std's quoting of text. They are the functions marked `external_body` in
`control::hash_chain` and `base::text`.
