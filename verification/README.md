# paged-kv-cache

A KV cache memory manager in the style of PagedAttention, written in Rust and
verified with Verus: a reference-counted block pool, block tables with
copy-on-write forks, a continuous-batching scheduler, and a storage backend in
host memory that serves as the reference for a device backend.

## Layout

- `src/` is the verified library.
  - `types`, `error`, `text`: ids, errors and their wording.
  - `config`, `address`: geometry of the pool, and where an entry lies in it.
  - `pool`, `allocator`: the block pool as a mathematical state, and
    `BlockAllocator`, which implements it.
  - `table`, `block_table`: one sequence's blocks, and `BlockTable`.
  - `schedule`, `scheduler`: the scheduler as a state machine, and `Scheduler`.
    `soundness` and `progress` hold the lemmas about it.
  - `store`, `backend`, `cpu`: what a pool holds, the `KvBackend` trait, and
    `CpuBackend`.
  - `launch`: what a device backend hands to its kernels.
  - `demo`: a scheduler under synthetic load.
  - `laws`, `ledger`, `turns`, `drain`, `budget`: what holds of the library as a
    whole. Owner counts are the numbers of tables that hold a block over any
    history, blocks never leak, copy-on-write loses nothing over an append or a
    whole step, sequences never write over each other, every sequence gets
    exactly the tokens of its budget, and every request that fits in the pool is
    finished exactly once.
- `tests/` holds the tests.
- `app/` is the demo server (HTTP API and background loop) and the CUDA backend.

## Notes

- The cache's element type is a parameter of `KvBackend` and `CpuBackend`.
- Utilization is a numerator and a denominator; the server turns it into a
  fraction.
- The one thing taken on trust is that the random number generator of `rand`
  draws within the range it is given (`demo::random_in`).
