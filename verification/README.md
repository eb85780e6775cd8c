# nkv

A notify key-value store: values live under `.`-separated keys, clients
read and write them over a line protocol, and subscribers hear about every
change at or below the key they watch.

## Layout

- `src/` is the library, verified with Verus:
  - `trie.rs`: the keyspace tree; its view is a map from key paths to
    values, and `get` answers exact keys and `*` wildcards.
  - `nkv.rs`: the store (`NkvStorage`) over a `StorageEngine`, with the
    subscribers of each key (`Notification`) and who is told about a change.
  - `request_msg.rs`: requests, responses and notifications with their text
    forms and parsers; base64 comes from the `base64` crate.
  - `srv.rs`: what the server answers for each store outcome, and whether
    a subscription needs the store or an existing notifier.
  - `lib.rs`: the client's ids, requests and subscription bookkeeping.
  - `notifier.rs`: the two-slot latest-value buffer and the registry of a
    subscription's clients.
  - `persist_value.rs`: where each key's file lives on disk.
  - `persistence.rs`: the calls the store makes on its storage engine, what
    an engine that does as asked holds, and why values survive a restart.
  - `flag_parser.rs`, `command.rs`, `text.rs`, `errors.rs`, `traits.rs`:
    command-line flags, client commands, string helpers, errors and the
    storage interface.
- `app/` holds what runs around the library: sockets, tasks, files on disk,
  logging, and the server and client programs.
- `tests/` exercises the library.
