# java_multiversion

Lets clients of older Minecraft: Java Edition releases play on a server that speaks
the newest one. The server's packets are rewritten into the layout and the ids of the
client's release, and what the client sends is rewritten back.

The rewriting is a library, verified with Verus. The tables of ids, names and layouts
that differ from release to release are its arguments.

## Layout

`src/` is the library.

| modules | what they do |
| --- | --- |
| `wire`, `text`, `number`, `order`, `position`, `palette` | bytes, numbers, packed arrays |
| `nbt`, `hash` | named binary tags, and the hashes that clients report for them |
| `version`, `mapping`, `catalog`, `target`, `shape` | releases, id tables, registries, payload layouts |
| `types`, `item`, `item_component`, `item_nbt`, `client_item` | item stacks in the form of each release, in both directions |
| `item_backup`, `item_round_trip` | what a stack loses on its way to a client, and how it comes back |
| `hover` | texts whose hover events a client could not read |
| `sound`, `particle`, `entity`, `entity_data_types` | sounds, particles, explosions, entity metadata, attributes |
| `chunk_remap`, `chunk_legacy` | chunks and light, up to the layouts of 1.17 and 1.16 |
| `recipe_book`, `recipe_packets`, `recipe_legacy` | recipe displays, and the recipes of older clients made from them |
| `connection`, `event` | what is remembered of a client, and what becomes of a packet |

Every function states its result over mathematical models: byte sequences for what is
read and written, `Stack`, `Entry`, `Row` and their like for values. The public proof
functions state what holds of several functions together, such as that a stack which a
client could not hold whole comes back whole.

Five small functions call other crates or the standard library and are trusted: their
doc comments say what is taken for granted.

`tests/` runs the library on concrete values. `app/` is the plugin around it: it takes
the server's events, finds the tables of the client's release and calls the library.
