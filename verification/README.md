# gmpublished_backend

The backend of a Garry's Mod Workshop publishing tool: preview loading of
BSP maps and PCF particle files, a fuzzy search index over installed addons
and Workshop items, and the rules around Steam Workshop downloads,
publishing and the Steam client's background runtime.

## Layout

- `src/` — the library, verified with Verus. Every function carries a
  `requires`/`ensures` contract over mathematical models (`Seq`, `Set`,
  `Map`, views of the data types), and the laws that relate several
  functions are public proof functions.
  - `map` — map content paths, entity keyvalue rules, lump index
    arithmetic, the BSP tree walks (point to leaf, box to clusters), PVS
    flood fills, face attribution to the 3D skybox, lightmap packing and
    baking, the prop collision grid, the material table, the embedded
    pakfile.
  - `pcf` — the binary DMX reader and particle system extraction.
  - `search` — the search index: rank order, deduplication, installed
    addon syncing, quick and full searches scored with nucleo.
  - `steam` — Workshop query batching and chunk draining, download
    preflight and collection expansion, Web API response decoding,
    publishing metadata and the content folder's whitelist check, and the
    background runtime's state machine.
  - `text` — the character-level parsing shared by the rest.
- `app/` — ordinary Rust around the library: decoding BSP lumps with
  vformats, the floating-point scene (geometry, lighting, walk collision),
  the Web API requests, threads and locks, and error messages.
- `tests/` — tests of the library on concrete values.

Calls into outside code that the library makes (vformats' ZIP reader and entities-lump decoder,
nucleo's matcher, and from std `String::from_utf8_lossy`,
`String::from_iter` and `Arc::clone`) sit behind small trusted wrappers
whose contracts say what that code documents.
