# distill_fs

A read-only file system for container and virtual machine images that are fetched on demand.
Data that was read once is kept in a local copy of the image; deduplicated chunks live in a
database that all images on a node share, and nodes give chunks to each other.

`src/` is a library that Verus verifies. It does no input or output of its own. Each piece of
work that needs a disk, a network or a clock is a step function: it takes what happened, and
returns what to do next. The rule of each step is an open spec function that its contract names.

- `checksum`, `bytes`, `text`, `error`, `utils`: plain values and their encodings.
- `backend::cache`: the local copy of an image, with its bitmap and the fetches under way.
- `backend::dedup`, `backend::indexdb`: which parts of an image are chunks, and how a read is put
  together from them.
- `backend::chunkdb`, `backend::access`, `backend::writer`, `backend::capacity`: the chunk
  database, the order of its writes, and the removal of old chunks.
- `backend::peer`: the wire protocol, sessions and their pools, the choice of peers, the server,
  and the index of who has which chunk.
- `image`: a raw image shown as one file, and images in the RAFS format.
- `log_rotation`, `cli`, `bench`: what the programs decide.

What the library promises as a whole is stated by the public proof functions whose names start
with `law_`.

`app/` holds the programs: `distill_fs` with its commands `mount`, `serve-chunk`, `gc-chunk` and
`stats-chunk`, and the benchmarks `chunkdb_bench` and `peer_bench`, chosen by the name under which
the binary is started.

`tests/` holds tests of the library, which stand in for the databases and connections with plain
collections.
