//! A deterministic, equal-area coverage commitment over a discrete global grid: a canonical cell
//! set, its 32-byte root, openings (membership and non-membership), set algebra over roots, a
//! catalog index, the profile that binds every parameter, and the zone topology (scanline order,
//! edge neighbours, rasters, zone data) that never changes a root.

pub mod arith;
pub mod cover;
pub mod error;
pub mod hash;
pub mod hierarchy;
pub mod index;
pub mod opening;
pub mod profile;
pub mod setops;
pub mod shape;
pub mod tree;
pub mod wire;
pub mod zone;
pub mod zone_data;

pub use cover::{polyfill_cells, CoverWalk, Verdict};
pub use error::{Error, Result};
pub use hash::{Ctx, Digest, Hasher, Ladders, Sha256Tagged};
pub use hierarchy::{cid_to_suid, space, suid_to_cid, Cid, Hierarchy};
pub use index::{Index, KeyHit, Relation};
pub use opening::{open_path, verify_opening, Claim, Entry, Opening, OpeningRecord};
pub use profile::{burin_1, ogc_rhealpix, Profile};
pub use setops::{difference, divergence, intersect, merge, prove, union, Op, SetOpProof};
pub use shape::{region, shape, Region, Shape};
pub use tree::{Node, Tree};
pub use zone::{cell_at, from_raster, halo_index, neighbours, position, raster, raster_cells, raster_index, subzone_at, subzone_index, subzones, Direction, Position, DIRECTIONS};
pub use zone_data::{dggrs_uri, from_zone_doc, zone_coverage, Datum, DepthEntry, FieldValues, Presence, ZoneCoverage, ZoneDoc, RHEALPIX_DGGRS};
