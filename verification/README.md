# lug

An append-only log of patches, in the shape of a very small Kafka: what a log
keeps, what travels over the wire, what a client decides and what a load
generator holds a server to. The library is written in Verus. Every function
states in its contract what it returns, and Verus proves it.

## What is proved

- A log never exposes what its storage has not recorded. A write that fails
  takes memory back to where it stood, and a cold start gives back exactly what
  was appended. What it calls durable was there when it began, or was all it
  showed at a moment when the storage answered that it synced.
- JSON is what it is whatever the order of its keys, and values are equal exactly
  where the JSON they were read from is. What is read is written back as it was.
- Versions are contiguous. A patch that changes nothing mints none and leaves
  no record.
- Frames read back as they were written, however they are cut up on the way.
- A call is answered once, exchanges that share a connection do not disturb one
  another, and calls are sent again only where the caller asked for it.
- A follower converges on the view that the patches build. The events of a batch
  account for every version it moves over, a gap is told whether or not a view
  could be read over it, and a view that replaces another is told as rebuilt.
  Whoever a version wakes finds the state at that version already shown.
- A load goes out on an absolute schedule without cumulative rounding, and ends
  well only when every append and every delivery is accounted for.

Each of these stands as a public proof function beside the code it speaks of.

## Layout

`src/` is the verified library.

- `cavlc`: immutable JSON values over a persistent AVL tree, patches that edit
  them, and a store that keeps every version.
- `engine`: the traits of a structure that folds patches and of a storage that
  records them, and the log that joins the two.
- `proto`: frames, their length prefix, and how they are shown.
- `client`: calls, connections, pooling, subscriptions, followers, HTTP bodies
  and the words of the command line tool.
- `load`: settings, schedule, ledger, probes, reports and the run itself.
- `text`, `words`, `quote`, `json`, `keyed`: numerals, words, quoting, JSON values
  and keys in order.

Decisions are functions of plain values, so they are verified without a socket
or a clock. Times are nanoseconds from one fixed moment. What `bytes`,
`hdrhistogram`, `toml` and parts of the standard library contribute is behind
small functions whose doc comments say what is taken on trust.

`tests/` runs the library. `app/` is the program around it: it reads and writes
sockets, processes and files, turns bytes into JSON, and does what the library
decides. It answers to two names, `lug` and `lug-load`.
