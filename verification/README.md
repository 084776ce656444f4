# trie-gen

A verified generator for Ethereum's state trie. From the hashed state tables alone it computes the
state root and every branch node that the trie tables (`AccountsTrie`, `StoragesTrie`) hold, either
with one builder over the whole state or in 16 first-nibble partitions.

## What is proved

* The partitioned and the serial build of a state give the same root and hand out the same nodes,
  each once (`generate`, `laws::lemma_partitioning_is_invisible`).
* Root nodes are never stored, zero slots do not count, an account without slots has the empty
  storage root, and every node belongs to exactly one partition (`laws`).
* The sinks keep what they receive: the updates collected in shards are those collected in one
  place, the chunks of the writer are the nodes of the build in order and, written into empty
  tables, leave exactly these nodes, one entry per node. On one machine the digest of a run, of its
  updates and of the tables it leaves behind is one digest, whatever the order (`updates`, `writer`,
  `digest`, `laws`, `table_laws`).
* Nibble arithmetic, partition bounds, the counters of a rebuild, the spacing of progress reports,
  the formatting of byte counts and the reading of the command line are exact.

The hash builder, Keccak, the RLP encoders, the row hash and the parser of hexadecimal words come
from outside crates. Each is declared in one place with the contract it is used under; nothing else
is taken on trust.

## Layout

* `src/`: the verified library.
* `tests/`: its tests.
* `app/`: `datadir_bench`, which runs the library on a reth datadir: database access, threads, the
  counting allocator and printing. Under the names `synth_bench` and `make_datadir` it times
  generation on a synthetic state and writes such a state into a datadir. It is built against a
  reth checkout, whose database and trie crates it uses.

```sh
datadir_bench --datadir ~/.local/share/reth/mainnet --reth-rebuild --expected-root 0x..
datadir_bench --datadir ~/.local/share/reth/mainnet --write --expected-root 0x..
datadir_bench --datadir ~/.local/share/reth/mainnet --write --threads 1 --expected-root 0x..
```
