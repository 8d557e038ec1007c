# rux_controller

Building blocks of a reconciliation controller.

- `src/` (verified): the `Resource` trait, the `Event` type, the
  resource cache `kv_store::KVStore` (a map by name that lists each stored
  name once) and the de-duplicating FIFO `schedular::WorkQueue`, with the
  laws that relate their operations.
- `app/` (plain Rust): the shared asynchronous handles around that state
  (tokio locks, worker wake-up, the event channel) and the `Runtime` and
  `Controller` traits that users implement with their own I/O.
- `tests/`: tests of the library on concrete values.
