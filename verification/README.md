# axiom_pumpkin

Serverside component for Axiom on Pumpkin, with its protocol verified in Verus.

`src/` is the library: everything that decides. It reads packets and says what they ask for, and
it writes the packets that answer them. Every function states in its contract what it returns.

- `wire`, `buf`, `fields`, `text`: bytes, and what is read from them and written to them
- `zstd`, `nbt`, `nbt_laws`: compressed frames, and NBT tags
- `palette`: sections of blocks
- `tunnel`: packets that are split across frames
- `permissions`, `proto`: who may do what, the handshake, the budget, and where packets go
- `handlers`, `edits`, `ticking`, `chunks`, `entities`: what the packets ask for
- `annotations`, `annotation_laws`: the shared drawing layer

Functions named `law_*` state what holds across several functions.

`app/` is the plugin itself. It asks the server for what the library needs to know and does what
the library says. It expects the block entity dictionary as `block_entities_v1.dict` in the
plugin's data folder.

`tests/` runs the library on concrete values.
