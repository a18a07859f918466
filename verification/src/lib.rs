//! Streaming of 3D Tiles content: containers, archives, tile preparation and
//! the scheduling decisions of a tile streamer.
pub mod api;
pub mod archive;
pub mod archive_laws;
pub mod archive_write;
pub mod bytes;
pub mod content;
pub mod credits;
pub mod decode;
pub mod evict;
pub mod extract;
pub mod extract_laws;
pub mod feature_laws;
pub mod fetch;
pub mod fetch_laws;
pub mod format_laws;
pub mod frame;
pub mod glb;
pub mod gltf;
pub mod gltf_laws;
pub mod graph;
pub mod index3tz;
pub mod json;
pub mod prepare;
pub mod prepare_laws;
pub mod primitive;
pub mod rewrite;
pub mod rewrite_laws;
pub mod scene;
pub mod scene_laws;
pub mod schema;
pub mod sets;
pub mod sorting;
pub mod spawn;
pub mod splat;
pub mod splat_laws;
pub mod splice;
pub mod splice_laws;
pub mod stream;
pub mod submesh;
pub mod swap;
pub mod text;
pub mod tile_laws;
pub mod tiles;
pub mod tree;
pub mod uri;
pub mod zip;
