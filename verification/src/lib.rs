//! A linear hashed octree: a sparse spatial index from Morton codes to payloads,
//! kept as two flat maps and never as linked nodes.
//!
//! A [`Linear`] tree stores a payload for each code in its leaf store. Beside
//! it, an interior map records what is needed to find the leaves from the root:
//! each [`MortonRegion`] on record holds either the code of the one leaf that
//! lies in it or the null code, and a region without a record is either
//! crowded with two leaves or more, so that its children tell them apart, or
//! lies below a region on record. Which regions are on record follows from the
//! stored codes alone ([`interior::interior`]), and every operation is
//! specified against that.
//!
//! Trees are folded from the leaves up with a [`Gatherer`], which summarises a
//! single leaf, and a [`Folder`], which combines the summaries of a region's
//! children ([`gather::fold_region`]).

pub mod gather;
pub mod interior;
pub mod laws;
pub mod linear;
pub mod morton;
pub mod region;
pub mod region_map;
pub mod strategies;

pub use gather::{Folder, Gatherer, Summary};
pub use interior::Interior;
pub use linear::Linear;
pub use morton::{Morton, MAX_LEVELS};
pub use region::MortonRegion;
pub use region_map::MortonRegionMap;
pub use strategies::{Collect, LeafCount};
