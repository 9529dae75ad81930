# vik

`vik` (Version Integrity Kit) is a small local version control system:
content-addressed objects (SHA-256), blob/tree/commit objects, a staging
index, commit history through refs and `HEAD`, branches and checkout.

## Layout

- `src/` is the library, written in Verus. Every function there carries a
  contract, and Verus proves it, except three small trusted wrappers whose
  contracts Verus takes on trust: `hash::sha256_digest` (calls `sha2`),
  `hash::hex_encode` (calls `hex`) and `text::is_utf8` (calls
  `std::str::from_utf8`).
  - `object`, `hash`: the object format (`<kind> <size>\0<data>`), its
    reading, and object ids (lowercase hex SHA-256).
  - `text`, `order`, `pathmap`: byte-string helpers (lines, trimming,
    splitting, decimal numbers), byte-wise order and an ordered map.
  - `index`: reading, writing and updating the staging index.
  - `tree`: building the directory tree from the index, writing tree
    objects, reading them back, and the depth-first `TreeWalk`.
  - `restore`: the proof that walking the trees written for an index finds
    exactly the index's files again.
  - `commit`, `refs`, `status`, `cli`: commit text and log, refs and
    branches, status, and the command set.
- `app/` is the command-line program around the library: argument parsing,
  and all reading and writing of files under `.vik/`.
- `tests/` runs the library on concrete values.
