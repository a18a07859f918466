# tiles3d

A streamer of 3D Tiles, verified with Verus: the containers, the archives, the
preparation of tile content, and the decisions of each frame.

- `src/` is the library. Everything in it is verified. It holds floats by their
  bits, names what is in the scene by numbers, and plans reads instead of making
  them.
- `app/` is the streamer around it: files and the web, the parse of
  `tileset.json`, floating point, platform decoders, and the frame loop of a
  host.
- `tests/` runs the library.

## The library

| Modules | What they are |
|---|---|
| `bytes`, `text`, `sorting`, `json` | little-endian numbers, texts, stable sorting, JSON documents |
| `glb`, `gltf`, `decode` | the binary container, accessors and feature metadata, errors |
| `zip`, `index3tz`, `archive`, `archive_write`, `archive_laws` | `.3tz` archives: reading by ranges, writing, and that one undoes the other |
| `fetch`, `uri` | where bytes come from, and what is asked of whom |
| `rewrite`, `splice`, `extract`, `prepare`, `content` | from the bytes of a tile to plain glTF or to geometry |
| `scene`, `primitive`, `splat`, `submesh` | what a tile draws |
| `schema`, `tree`, `tiles` | tilesets, the tree of tiles, grafts and compaction |
| `stream`, `evict`, `credits`, `sets`, `frame`, `swap` | the cut, loads, eviction, attribution, a frame as a whole, and a refinement over frames |
| `spawn`, `api` | what a host puts into the scene, and who owns it |

The laws of the library are public proof functions beside the functions that
they are about.
