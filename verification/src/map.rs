//! Preview-quality BSP map support: path normalisation for map content,
//! entity keyvalues, lump index arithmetic, visibility bookkeeping and
//! lightmap atlas packing.
pub mod paths;
pub mod entity;
pub mod data;
pub mod lumps;
pub mod lighting;
pub mod visibility;
pub mod pakfile;
pub mod locate;
pub mod grid;
pub mod materials;
