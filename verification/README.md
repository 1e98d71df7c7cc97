# msg_store

A priority message store. Messages are grouped by priority; they are forwarded
highest priority first and, within a priority, oldest first. The store and each
group may have a byte limit; when an insert would pass a limit, the store burns
messages of the lowest priorities first, oldest first, and never burns a message
of higher priority than the one being inserted.

The library is written in Verus and verified: its functions carry contracts over
a mathematical model and are proved against them. The one reading of the system
clock promises nothing of the value it reads.

- `src/store/`: the store itself (`base.rs`), its model (`model.rs`), the
  lemmas about the model (`lemmas.rs`) and the laws that hold across its
  operations (`laws.rs`); message ids and their order (`uuid.rs`, `order.rs`).
- `src/msg.rs`: reading insert requests (`priority=..&saveToFile=..?body`) and
  writing replies.
- `src/config.rs`, `src/stats.rs`, `src/file_storage.rs`, `src/database.rs`,
  `src/level.rs`, `src/bridge.rs`, `src/api.rs`: configuration, counters, the
  file storage index, the in-memory database, the LevelDB entry layout, error
  codes, and the summaries the server reports.
- `src/decimal.rs`, `src/text.rs`, `src/clock.rs`: decimal numbers, splitting and
  trimming text, and the system clock.
- `app/`: the server's I/O around the library: files, locks, request streams,
  JSON and bincode, LevelDB, and exporting the store.
- `tests/`: tests of the library on concrete values.
