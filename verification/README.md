# RhydaDB

A single-node CQL database server. It speaks the Cassandra native protocol v4
and keeps its data in independent storage engines, with each partition on one of
them.

- `src/` is the server's logic, verified with Verus: the wire format, the
  values and keys, the statements and what they do, and the state of a
  connection. It performs no I/O. What a statement needs from the engines it asks
  for step by step (`query::Next`), and what it changes it gives out as commands
  (`storage::Command`).
- `src/laws.rs`, `src/selection.rs`, and the functions whose names begin with
  `law_` in the other modules, state what holds across functions: what is written
  is read back, a selection gives exactly the rows that meet its restrictions, a
  refused statement writes nothing, a partition is on one engine.
- `app/` runs the library: sockets, threads, and the RocksDB engines.
- `tests/` drives whole sessions against engines in memory.

## Running

```sh
RHYDADB_DATA=./data RHYDADB_LISTEN=127.0.0.1:9042 rhydadb
```

`rhydadb bench`, `rhydadb bench_async`, `rhydadb bench_honest` and `rhydadb
bench_server` are the benchmarks.

There is no replication, authentication, TTL, counter, batch or paging.
