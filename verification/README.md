# cytah_core

The verified core of a GHOSTDAG block-DAG node and its wallet SDK, written
in Verus. `src/` holds the library: blocks and transactions, the DAG store
and index with traversal, GHOSTDAG blue sets and ordering, difficulty and
fee adjustment, pre-validation and batch signature checks, the DAG-aware
mempool, block production, execution of transfers, denial-of-service and
spam limits, and the wallet helpers. Every function there carries a
contract that Verus proves; calls into hashing, secp256k1, hex, rayon and
clock crates go through small trusted wrappers whose contracts are stated
next to them.

`tests/` exercises the library with the real outside crates linked.
`app/` is the command-line program around it: argument parsing, file and
network I/O, threads, and the floating-point statistics that stay outside
the verified code.
