//! Diamond dispatch: a single entry point that routes each call, by the
//! 4-byte selector that prefixes it, to the facet registered for that
//! selector in a routing table kept under a hash-derived storage region.
pub mod dispatch;
pub mod region;
pub mod table;

pub use dispatch::{dispatch_stored, facet_from_word, propagate, selector_of, DispatchError, SELECTOR_BYTES};
pub use region::{region_id, region_id_of, DIAMOND_NAMESPACE};
pub use table::{is_null_facet, DiamondStorage, RouteEntry};
