# qurb

Private file sync: the rules by which devices find each other, agree on what
their files are, and store them, written in Verus and proved.

`src/` holds the library. It does no I/O: times, payloads, directory walks and
messages are handed in as values, and what is to be done comes back as values.

- `sync`: version vectors, conflict resolution, reconciling two trees, and why
  two or three devices end up agreeing.
- `storage`: content-defined chunks, sealing, the index with its reference
  counts, reading back, deletion and restoring, garbage collection, storage
  limits, private vaults, history and trusted peers.
- `watcher`: what not to watch, debouncing, and releasing a file only once it
  has stopped changing.
- `signal`: rendezvous identifiers, the directory of connected devices, wake-up
  tokens, rate limits, pinned certificates.
- `tray`: what the interface says.
- `probe`, `bench`: NAT probing and measuring chunking.
- `bytes`, `digest`, `keyed`, `order`, `size`, `text`: what the rest is made of.

Functions named `law_...` state what holds across several operations.

`app/` is the program around the library: SQLite, the filesystem, websockets, TLS
and the desktop. `tests/` runs the library on concrete values, with the outside
crates linked.
