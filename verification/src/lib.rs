//! Harvesting of statutory legal texts: paragraph segmentation of statute
//! bodies, a bounded-retry embedding protocol, and a batch orchestrator over
//! a paginated public index — verified logic around unverified fetch,
//! selection, embedding and persistence boundaries.
pub mod embed;
pub mod fetch;
pub mod lawid;
pub mod orchestrate;
pub mod segment;
pub mod select;
pub mod text;
