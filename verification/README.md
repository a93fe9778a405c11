# ffxivtools

Tools for reading the game data of FINAL FANTASY XIV, written in Verus: the
library in `src/` states what each function does in its `requires`/`ensures`
contract, and Verus proves it.

## Layout

- `src/` — the verified library.
  - `reference.rs`: which archive holds a game path, and the CRC-based hashes
    under which the archive's index lists it.
  - `index.rs`: SqPack index files and the binary search of their folder and
    file tables.
  - `data.rs`: the headers and frame tables of SqPack data files.
  - `raw_file.rs`: the block container of one compressed file (reading,
    decoding, writing back).
  - `bulk.rs`, `provider.rs`: the bulk transfer protocol between the data
    server and its clients, and where extracted files are found.
  - `server.rs`: the data server's decisions (languages of a sheet request,
    mirror probe, mounting of data directories).
  - `havok.rs`, `havok_reader.rs`, `animation.rs`, `spline.rs`: Havok binary
    tag files, animation bindings, and the packed tracks of spline-compressed
    animations.
  - `batch.rs`: the bookkeeping of a package that gathers many reads into
    one request.
  - `texture.rs`, `render.rs`: texture pixel formats, texture pictures as
    PNG files, and what the renderer decides without a GPU.
  - `text.rs`, `util.rs`, `byte_reader.rs`: byte-level helpers.
- `tests/` — tests on concrete values.
- `app/` — the data server program and the I/O and floating-point work
  around the library (reading files, downloading, serving HTTP, waiting on
  batched reads, evaluating animation curves and camera matrices).

## Outside crates

Raw DEFLATE data is decoded with `miniz_oxide`, which reports malformed data
as an error. The decoder of the `compression` crate panics on some malformed
data (a block of the reserved type), and no check short of decoding can rule
those inputs out beforehand.
