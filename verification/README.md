# raftkv

A replicated, crash-safe key-value store that speaks the Redis protocol, with its logic verified
by Verus.

```
$ redis-cli -p 6381
127.0.0.1:6381> SET name uday
OK
127.0.0.1:6381> GET name
"uday"
127.0.0.1:6381> DEL name
(integer) 1
```

## Layout

- `src/` is the verified library. It performs no I/O: messages, ticks and lines of text go in, and
  messages to send, mutations to log and replies come out.
  - `raft/model.rs` says what each message and each tick does to a node; `raft/node.rs` does it.
  - `raft/laws.rs` has the laws of one node, `raft/safety.rs`, `raft/history.rs` and
    `raft/commit.rs` those of a cluster: at most one leader in a term, logs that match, and
    committed entries that are never lost.
  - `cluster.rs` puts consensus, storage and routing together. Its laws say what clients read: the
    table of a node is what the committed commands of its log make of it, and a write that was
    confirmed is read from every node that has applied it.
  - `durable.rs` holds everything back until the state of the node is saved.
  - `storage/`, `sharding/`, `network/`, `transport.rs` and `metrics.rs` hold the rest of the store,
    each with the laws that concern it.
- `app/` is the server around the library: files, sockets, threads and the clock.
- `tests/` runs the library on concrete values.

## What the client of a write is told

- `OK`, or `(integer) 1` for a deletion, once the write is committed and in the write-ahead log.
- `REPLACED` if another leader has committed a different entry in its place. The write is lost.
- `NOTLOGGED` if the write is committed but could not be written to the write-ahead log. It is not
  read from this node, unless the node restarts and applies its Raft log once more.
- `TIMEOUT` if nothing of this has come about in time. The write may still be committed later.

## The write-ahead log

A mutation is one line: `PUT|key|value` or `DELETE|key`. Where a key or a value would break the
line, because it holds a bar or a line feed or would end the line with a carriage return, the line
is `ESCAPED-PUT|key|value` or `ESCAPED-DELETE|key`, with `\\`, `\p`, `\n` and `\r` for a backslash, a
bar, a line feed and a carriage return. Every mutation is read back as it was written.
