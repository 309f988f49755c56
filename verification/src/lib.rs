//! Tagma: a hash-less, collision-free coordinate space built on the 11,172
//! Hangul syllables.
pub mod coord;
pub mod coord_path;
pub mod text;
pub mod coord_space_n;
pub mod listing;
pub mod map;
pub mod coord_space;
pub mod flat;
pub mod set;
pub mod tagma_coord;
pub mod base11172;
pub mod base11172_raw;
pub mod key;
pub mod keymap;
pub mod dyn_coord;
pub mod coord_space_dense;
pub mod coord_gen;
pub mod coord_kv;
pub mod coord_kv_n;
pub mod coord_kv2;
pub mod dyn_coord_kv;
pub mod coord_cube;
pub mod spatial;
pub mod coord_set_n;
pub mod coord_space_m;
pub mod tagma_cli;
pub mod cube_kv;
pub mod laws;
