# apfsrelic

A read-only reader for Apple File System images (`.sparsebundle` backups,
raw containers, GPT whole-disk images), written in Verus: every function of
the library carries a `requires`/`ensures` contract that Verus proves.

## Layout

- `src/` — the verified library.
  - `device` — the read-only `BlockDevice` abstraction and its in-memory,
    offset-window and partitioned backends; GPT parsing; the sparsebundle
    band arithmetic and `Info.plist` reading.
  - `apfs` — on-disk structures (object headers, container and volume
    superblocks, checkpoints, object maps, B-tree nodes, file-system records,
    extended fields), B-tree lookups and walks, path resolution, snapshots,
    file-data extraction.
  - `source` — locating and opening the container inside an image.
  - `cli`, `commands` — option parsing and the decisions behind each command.
  - `recover`, `integrity`, `listing`, `gui` — recovery planning, the
    `verify` checks, listing order and the explorer's state.
- `tests/` — tests of the library on byte-level images built in memory.
- `app/` — the command-line program: file and directory access, JSON output,
  and the loop that writes recovered files.

Each model is a spec function over the device's bytes (`Seq<u8>`); the
contracts of the executable functions are stated over these models, and
public proof functions state the properties that relate several of them
(for instance that an object-map lookup finds the newest version of an
object not above the requested transaction).
