# t4

An embedded object store in a single file. Keys have up to 256 bytes, values a
little less than 4 GiB.

The file holds a log and the values, in pages of 4096 bytes. The log is a linked list of pages, the
first of which is at the start of the file; it records every `put` and every `remove`. Values go to
the end of the file, padded to whole pages. When a store is opened, the log is replayed into an index
in memory.

`src/` is verified with [Verus](https://github.com/verus-lang/verus). It decides everything and does
no I/O itself: operations come apart into steps, each of which says what to read or write next.

- `store`: the operations on a store, and what they answer
- `wal`, `wal_page`, `wal_replay`, `codec`: the log and its format
- `index`, `input_kv`, `layout`: the index, keys and values, and arithmetic on offsets
- `disk`: what holds of the file and the store together: a value that was put is read back, one that
  was removed is not, and replaying the log of a store gives back its index
- `io_task`, `io_worker`, `io_backend`: requests, and how a worker with one ring serves them
- `uring_runtime`: the threads of a pool with a ring each
- `buffer`, `memory`: buffers for reads, and the allocator behind them
- `model`: a plain map to hold a store against, and operations drawn from raw bytes

`app/` does what is asked for: it opens files, maps memory, runs threads and drives `io_uring`.

`tests/` runs the library on concrete values.
