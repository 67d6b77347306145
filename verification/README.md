# okm

Objects on an ordered key-value engine: typed documents with indexes,
junctions and edges, graphs, documents of dynamic fields, and exports of all
of them, with every byte of every key stated in a contract and proved.

- `src/` is the library. Everything in it is verified with Verus, down to the
  calls into the standard library and Arrow, whose contracts are stated at the
  functions that make them.
- `app/` connects it to the outside: engines (fjall, redb, slatedb), threads
  and channels, Parquet files, JSON, floating-point numbers.
- `tests/` runs the library on concrete values.

## The layers

| Module | What it holds |
|---|---|
| `bytes`, `text` | byte order, big-endian numbers, names |
| `engine` | engines as maps, batches, prefixes, nested engines and their frames |
| `key`, `field`, `payload`, `cell` | keys, declared fields, payloads, single values |
| `index`, `rows`, `table`, `model::document` | documents, their indexes and their tables |
| `junction`, `edge`, `collection`, `model::collection` | relations between documents |
| `model::obj_dynamic`, `model::obj_dict`, `model::dynamic_collection`, `obj_dynamic` | dynamic values, the dictionary of their names, documents keyed by values |
| `model::graph` | edges as documents, with their indexes |
| `wrappers`, `model::wrappers`, `reverse` | field types and how they are stored |
| `schema`, `tooling`, `arrow_bridge`, `bindings` | declarations as data, exports, values of other languages |
| `subscribe` | events of writes |
| `users` | an example of all of it |

What the library promises as a whole stands in the public proof functions
whose names begin with `law_`.
