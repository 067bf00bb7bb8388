# World Inspector

Looks into Minecraft Bedrock worlds and edits them: blocks, players, inventories, entities and
chunks, straight from the world's database.

The library is written in Verus. Every function says in its contract what it returns, and the
contracts are proved. What holds between functions stands in the `law_...` proofs beside them.

## Layout

- `src/` is the library. It works on plain values: byte strings, texts, entries of a database in
  the order of their keys, and NBT trees.
  - `bytes`, `text`, `encoding`, `json`, `compress`: the ground.
  - `nbt`, `name_order`, `nbt_json`, `nbt_edit`, `codec`: NBT trees, and the codec as the library
    sees it. The caller hands over the functions that decode and encode.
  - `store`, `keys`: the content of a database, and what its keys mean.
  - `world`, `inventory`: players and their items.
  - `blocks`, `dump`, `level`, `player_report`, `summary`, `lines`, `messages`: what is shown.
  - `actors`, `density`, `ranking`: entities.
  - `regions`, `batch`: deletion of chunks.
  - `transfer`, `chunk_export`, `import`: moving entries between worlds.
  - `relocate`, `entities`, `placement`, `relocation`: import of chunks at another place.
  - `cli`: the command line.
- `app/` is the program around it: the database on disk, files, the binary NBT codec, floating
  point, and the interface for C.
- `tests/` runs the library.

## Keys

| Key | Holds |
|---|---|
| `~local_player` | the local player |
| `player_<UUID>` | a player's identity, with a `ServerId` that points to the full data |
| `player_server_<UUID>` | a player's full data |
| `actorprefix<id>` | an entity |
| `digp<chunk>` | the entities of a chunk |
| `<cx><cz>[<dimension>]<tag>...` | chunk data; the dimension takes four bytes or, in later saves, one |

A key is that of a chunk where its tag is one of chunk data and it does not begin with a name. So
`scoreboard` or `map_-1` never count as chunks, and a chunk whose first byte is that of `~` never
counts as a player.

## Files

Exports are JSON: `entries` with `key_hex` and `value_base64` (and `identifier` for entities),
`total`, and for chunks the list `chunks` and the lowest block as `origin`. An import at another
place moves by the chunks between `origin` and the target.

A batch file holds `regions`, each with `dimension`, `x1`, `z1`, `x2` and `z2`. A `total`, where it
is given, has to be their number.
