# ipfrs

Content-addressed block storage, tensor computation graphs and tensor
transport, with the decision logic written in Verus and proved against its
contracts.

## Layout

- `src/` — the verified library.
  - `cid`, `error` — CIDs, blocks and the error type.
  - `graph_op`, `graph`, `fusion`, `graph_exec` — computation graphs:
    shape inference, topological order, validation, common-subexpression
    elimination, constant folding, dead-node removal, operator fusion,
    batch scheduling, streaming and distributed partitioning.
  - `tensorswap`, `einsum` — tensor metadata, flow control, prioritised
    stream requests and deadline boosts, chunked streams, the priorities
    and wants of tensor requests, safetensors headers, einsum expressions
    and their dependency graphs.
  - `cache`, `bloom`, `compression`, `gc`, `migration`, `blockstore` —
    the storage layer's caches, filters, block framing, mark-and-sweep
    decisions and migration accounting.
  - `gradient`, `semantic`, `node_stats` — federated-learning
    bookkeeping, routing configuration, quantized-vector arithmetic,
    statistics records and subsystem health.
  - `dag` — path segments and the per-node step of resolving a path
    through linked IPLD nodes.
- `tests/` — tests of the library, run with the outside crates linked.
- `app/` — what performs I/O or computes with floating point around the
  library: the sled store, the asynchronous store wrappers and loops, and
  the floating-point gradient and quantization code.

Calls into outside crates (zstd, lz4, snap, lru, oxicode, serde_json) go through small trusted wrappers whose contracts are stated next to
them; everything else in `src/` is proved.
