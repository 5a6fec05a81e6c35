//! A registry of reported cases: records addressed by identifiers that are
//! allocated in increasing order and never reused, with create, read, update,
//! delete, and a filtered, paginated listing.

mod types;
pub mod query;
pub mod model;
pub mod registry;
pub mod laws;

pub use types::{AccountId, Balance, CaseNFT, CaseNFTOutput, CaseView, Category, ContentHash, Error, Id, Status};
pub use registry::Case;
