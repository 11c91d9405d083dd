# mini-garnet

A small RESP cache-store with its rules stated as contracts and proved with
Verus: a hybrid log that spills to a device, a hash index with latches, a
store of records with read, upsert, read-modify-write and delete, checkpoints
and recovery, an operation log, transactions, and the commands on top.

## Layout

| Where | What |
|---|---|
| `src/bytes`, `le`, `math`, `hash`, `glob` | bytes, little-endian numbers, arithmetic, key hashing, patterns |
| `src/record`, `device`, `epoch`, `log`, `index`, `chain` | record layout, storage, epochs, the hybrid log, the index, hash chains |
| `src/callbacks`, `store`, `transactions`, `scan`, `checkpoint`, `image` | the store, its sessions, and what a restart finds on the device |
| `src/resp`, `wire`, `arguments`, `functions` | the protocol, command arguments, what commands do to a record |
| `src/shared`, `aof`, `steps`, `commands`, `recovery`, `server` | the state of an instance, the operation log, command dispatch, replay, connections |
| `src/laws`, `replay` | what holds across commands, and what replaying the operation log brings back |
| `app/` | files, sockets, threads and `main` |
| `tests/` | the library on concrete values |

## Reading the contracts

* A `Store` is the map `contents()` from keys to records; every operation says
  what it does to `get(key)` and leaves every other key alone.
* A device may fail. Contracts say what holds whatever it does, and what is
  owed when the store is `reliable()` (the device serves everything up to the
  next page) and `calm(thread)` (moreover, nothing stands in the way of that
  thread's operations). An operation that stays in memory needs no device
  (`laws::work_in_memory_needs_no_device`).
* A device also says what a crash would leave of it (`Device::durable`). A save
  makes its log and its metadata durable, and
  `laws::what_is_saved_outlives_a_crash` says what a restart makes of that.
* A command is a `Step` between two `World`s; `steps` has one predicate for
  each command, and `RespSession::dispatch` meets the one of the command it was
  given.
* What commands make of a key is also stated as a function of what was seen of
  it (`laws::effect`, `replay::after`); a log of them is a fold of that.
* What a command replies when the device fails under it is left open, unless the
  newest record of its key was in memory all along (`store::on_hand`); so is
  what becomes of bytes that are not ASCII in an error message.
* The index has room for a fixed number of entries. `HashIndex::worth` counts what
  is left, every operation says what it takes of it (`Store::entered`), and a
  store says when a new key finds room (`indexable`).
* The library is single-threaded: whoever shares an instance holds it
  exclusively while a batch of commands runs, as `app/server.rs` does.
