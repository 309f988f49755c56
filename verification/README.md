# tagma

A hash-less, collision-free coordinate space built on the 11,172 Hangul
syllables (U+AC00..U+D7A3), with every function's behaviour stated in a
contract and proved with Verus.

## Layout

- `src/` — the verified library.
  - `coord`, `tagma_coord`: the 16-bit coordinate, its three axes, and the
    code-point form.
  - `coord_path`, `coord_cube`: fixed-length paths, and paths read as points
    of a `D`-dimensional grid.
  - `coord_space_n`, `coord_space`, `map`, `flat`, `coord_space_dense`,
    `coord_space_m`, `dyn_coord`: the address tables (one level, `N` levels,
    dense, dynamic depth) and their map-style interfaces.
  - `set`, `coord_set_n`: the one-level bit set and the sparse path set.
  - `key`, `keymap`: application keys turned into paths, and the map over
    them.
  - `coord_gen`, `coord_kv`, `coord_kv_n`, `coord_kv2`, `dyn_coord_kv`,
    `cube_kv`: the string-key stores and their spatial queries.
  - `spatial`: box enumeration, Hamming filtering, neighbourhoods and
    distances.
  - `base11172`, `base11172_raw`: bytes written as syllables.
  - `tagma_cli`, `text`, `listing`: command-line values and reports, text
    building, and the specifications of enumerations.
  - `laws`: properties of the system as a whole.
- `tests/` — the test suite.
- `app/` — the command-line tool (`nex-tagma` commands, and the `base11172`
  encoder when invoked under that name) and the floating-point distance.
